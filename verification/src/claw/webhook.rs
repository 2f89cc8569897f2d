//! Webhook requests: their verification, what they say, and how they are answered.

use vstd::prelude::*;
use vstd::utf8::{encode_utf8, is_char_boundary};

use crate::claw::pairing::{allowed, AllowView, PairingAllowlist};
use crate::environ::{env_var, Environ};
use crate::json::{
    field, int64, item, json_of_text, lemma_pointer_leads, parse_json, pointer, text, text_field,
    Json, JsonView,
};
use crate::text::chars::{is_some_text, is_space, owned, same};
use crate::text::lines::{first_line, first_line_of, lemma_lines_are};
use crate::text::lossy::{lossy_text, text_of_bytes};
use crate::text::number::{decimal, decimal_int, i64_text, usize_text};
use crate::text::search::{
    lemma_second_piece, lemma_split_apart, lemma_split_once, lemma_trim_end_char, lemma_words,
    occurs_at, second_piece, second_piece_of, second_word, split, split_at_char, split_once, split_once_at,
    starts, starts_with, trim_end_char, trim_end_char_of, words,
};

verus! {

/// The value of a hexadecimal digit.
pub open spec fn hex_digit(c: u8) -> Option<int> {
    if 48 <= c <= 57 {
        Some(c - 48)
    } else if 97 <= c <= 102 {
        Some(c - 87)
    } else if 65 <= c <= 70 {
        Some(c - 55)
    } else {
        None
    }
}

/// The byte that two characters stand for: two hexadecimal digits, or a plus sign and one.
pub open spec fn hex_byte(a: u8, b: u8) -> Option<u8> {
    match hex_digit(b) {
        None => None,
        Some(low) => if a == 43 {
            Some(low as u8)
        } else {
            match hex_digit(a) {
                None => None,
                Some(high) => Some((high * 16 + low) as u8),
            }
        },
    }
}

/// What the bytes of a query value stand for from position `i` on: `+` is a space, `%` and two
/// hexadecimal digits are one character, and every other byte is the character of its number.
pub open spec fn decoded(b: Seq<u8>, i: int) -> Seq<char>
    decreases b.len() - i,
{
    if i < 0 || i >= b.len() {
        seq![]
    } else if b[i] == 43 {
        seq![' '] + decoded(b, i + 1)
    } else if b[i] == 37 && i + 2 < b.len() {
        match hex_byte(b[i + 1], b[i + 2]) {
            Some(v) => seq![v as char] + decoded(b, i + 3),
            None => seq!['%'] + decoded(b, i + 1),
        }
    } else {
        seq![b[i] as char] + decoded(b, i + 1)
    }
}

/// Whether no `%` cuts a character in two: what follows it and two more bytes is the start of a
/// character.
pub open spec fn is_decodable(b: Seq<u8>, i: int) -> bool
    decreases b.len() - i,
{
    if i < 0 || i >= b.len() {
        true
    } else if b[i] == 37 && i + 2 < b.len() {
        is_char_boundary(b, i + 3) && is_decodable(
            b,
            if hex_byte(b[i + 1], b[i + 2]) is Some {
                i + 3
            } else {
                i + 1
            },
        )
    } else {
        is_decodable(b, i + 1)
    }
}

/// What a query value stands for.
pub open spec fn url_decoded(s: Seq<char>) -> Seq<char> {
    decoded(encode_utf8(s), 0)
}

/// Whether a query value can be decoded.
pub open spec fn url_decodable(s: Seq<char>) -> bool {
    is_decodable(encode_utf8(s), 0)
}

fn hex_value(c: u8) -> (r: Option<u8>)
    ensures
        match r {
            Some(n) => hex_digit(c) == Some(n as int) && n < 16,
            None => hex_digit(c) is None,
        },
{
    if 48 <= c && c <= 57 {
        Some(c - 48)
    } else if 97 <= c && c <= 102 {
        Some(c - 87)
    } else if 65 <= c && c <= 70 {
        Some(c - 55)
    } else {
        None
    }
}

fn byte_of(a: u8, b: u8) -> (r: Option<u8>)
    ensures
        r == hex_byte(a, b),
{
    match hex_value(b) {
        None => None,
        Some(low) => if a == 43 {
            Some(low)
        } else {
            match hex_value(a) {
                None => None,
                Some(high) => Some(high * 16 + low),
            }
        },
    }
}

/// Whether a query value can be decoded.
pub fn is_url_decodable(s: &str) -> (r: bool)
    ensures
        r == url_decodable(s@),
{
    let b: &[u8] = s.as_bytes();
    let n: usize = b.len();
    let mut i: usize = 0;
    while i < n
        invariant
            i <= n,
            n == b@.len(),
            b@ == encode_utf8(s@),
            is_decodable(b@, 0) == is_decodable(b@, i as int),
        decreases n - i,
    {
        if b[i] == 37 && n - i > 2 {
            if !s.is_char_boundary(i + 3) {
                return false;
            }
            if byte_of(b[i + 1], b[i + 2]).is_some() {
                i = i + 3;
            } else {
                i = i + 1;
            }
        } else {
            i = i + 1;
        }
    }
    true
}

/// What a query value stands for.
pub fn urlencoding_decode(s: &str) -> (r: String)
    requires
        url_decodable(s@),
    ensures
        r@ == url_decoded(s@),
{
    let b: &[u8] = s.as_bytes();
    let n: usize = b.len();
    let mut out: String = String::new();
    let mut i: usize = 0;
    assert(out@ + decoded(b@, 0) =~= decoded(b@, 0));
    while i < n
        invariant
            i <= n,
            n == b@.len(),
            b@ == encode_utf8(s@),
            decoded(b@, 0) == out@ + decoded(b@, i as int),
        decreases n - i,
    {
        let c: u8 = b[i];
        let ghost before = out@;
        let ghost at = i as int;
        if c == 43 {
            out.push(' ');
            i = i + 1;
        } else if c == 37 && n - i > 2 {
            match byte_of(b[i + 1], b[i + 2]) {
                Some(v) => {
                    out.push(v as char);
                    i = i + 3;
                },
                None => {
                    out.push('%');
                    i = i + 1;
                },
            }
        } else {
            out.push(c as char);
            i = i + 1;
        }
        proof {
            assert(decoded(b@, at) == seq![out@.last()] + decoded(b@, i as int));
            assert(before + (seq![out@.last()] + decoded(b@, i as int)) =~= out@ + decoded(
                b@,
                i as int,
            ));
        }
    }
    assert(out@ + decoded(b@, i as int) =~= out@);
    out
}

/// Whether a character of a query value stands for itself.
pub open spec fn stands_for_itself(c: char) -> bool {
    '\0' <= c <= '\u{7f}' && c != '+' && c != '%'
}

/// A value of ASCII characters without `+` and `%` stands for itself.
pub proof fn lemma_decode_plain(s: Seq<char>)
    requires
        forall|i: int| 0 <= i < s.len() ==> stands_for_itself(#[trigger] s[i]),
    ensures
        url_decodable(s),
        url_decoded(s) == s,
{
    let b = encode_utf8(s);
    assert(vstd::utf8::is_ascii_chars(s));
    vstd::utf8::is_ascii_chars_encode_utf8(s);
    assert(b.len() == s.len());
    assert forall|i: int| 0 <= i < s.len() implies #[trigger] b[i] == s[i] as u8 && b[i] != 43
        && b[i] != 37 by {
        assert(stands_for_itself(s[i]));
    }
    lemma_decode_plain_from(s, b, 0);
    assert(s.skip(0) =~= s);
}

proof fn lemma_decode_plain_from(s: Seq<char>, b: Seq<u8>, i: int)
    requires
        0 <= i <= s.len(),
        b.len() == s.len(),
        forall|j: int|
            0 <= j < s.len() ==> #[trigger] b[j] == s[j] as u8 && b[j] != 43 && b[j] != 37
                && stands_for_itself(s[j]),
    ensures
        is_decodable(b, i),
        decoded(b, i) == s.skip(i),
    decreases s.len() - i,
{
    if i < s.len() {
        lemma_decode_plain_from(s, b, i + 1);
        assert(b[i] == s[i] as u8);
        assert(b[i] as char == s[i]);
        assert(s.skip(i) =~= seq![s[i]] + s.skip(i + 1));
    } else {
        assert(s.skip(i) =~= Seq::<char>::empty());
    }
}

/// The last value of a parameter among the parts of a query.
pub open spec fn parameter(parts: Seq<Seq<char>>, name: Seq<char>) -> Option<Seq<char>>
    decreases parts.len(),
{
    if parts.len() == 0 {
        None
    } else if part_name(parts.last()) == name {
        Some(url_decoded(part_value(parts.last())))
    } else {
        parameter(parts.drop_last(), name)
    }
}

/// What stands before the first `=` of a part.
pub open spec fn part_name(part: Seq<char>) -> Seq<char> {
    match split_once(part, '=') {
        Some((k, _)) => k,
        None => part,
    }
}

/// What stands behind the first `=` of a part.
pub open spec fn part_value(part: Seq<char>) -> Seq<char> {
    match split_once(part, '=') {
        Some((_, v)) => v,
        None => seq![],
    }
}

/// The parts of the query of a request target.
pub open spec fn query_parts(target: Seq<char>) -> Option<Seq<Seq<char>>> {
    let pieces = split(target, '?');
    if pieces.len() < 2 {
        None
    } else {
        Some(split(pieces[1], '&'))
    }
}

/// Whether the value of every part can be decoded.
pub open spec fn all_decodable(parts: Seq<Seq<char>>) -> bool {
    forall|i: int| 0 <= i < parts.len() ==> url_decodable(part_value(#[trigger] parts[i]))
}

/// Whether every value of a query can be decoded.
pub open spec fn is_verifiable(target: Seq<char>) -> bool {
    match query_parts(target) {
        None => true,
        Some(parts) => all_decodable(parts),
    }
}

/// The token that a verification has to show.
pub open spec fn verify_token(env: Map<Seq<char>, Seq<char>>) -> Option<Seq<char>> {
    match env_var(env, "WHATSAPP_VERIFY_TOKEN"@) {
        Some(t) => Some(t),
        None => env_var(env, "PIRS_WHATSAPP_VERIFY_TOKEN"@),
    }
}

/// The challenge that a verification is answered with: only where it subscribes and shows the
/// token that is expected.
pub open spec fn verified(
    target: Seq<char>,
    env: Map<Seq<char>, Seq<char>>,
) -> Option<Seq<char>> {
    match query_parts(target) {
        None => None,
        Some(parts) => if parameter(parts, "hub.mode"@) == Some("subscribe"@) && verify_token(
            env,
        ) is Some && parameter(parts, "hub.verify_token"@) == verify_token(env) {
            parameter(parts, "hub.challenge"@)
        } else {
            None
        },
    }
}

/// The name and the value of a part.
fn part_of(part: &str) -> (r: (&str, &str))
    ensures
        r.0@ == part_name(part@),
        r.1@ == part_value(part@),
{
    match split_once_at(part, '=') {
        Some((k, v)) => (k, v),
        None => {
            proof {
                reveal_strlit("");
                assert(""@ =~= Seq::<char>::empty());
            }
            (part, "")
        },
    }
}

/// Whether every value of a query can be decoded.
pub fn can_verify(request_target: &str) -> (r: bool)
    ensures
        r == is_verifiable(request_target@),
{
    let pieces: Vec<String> = split_at_char(request_target, '?');
    if pieces.len() < 2 {
        assert(pieces.deep_view().len() < 2);
        return true;
    }
    assert(pieces.deep_view()[1] == pieces@[1]@);
    let parts: Vec<String> = split_at_char(&pieces[1], '&');
    let ghost all = parts.deep_view();
    let mut i: usize = 0;
    while i < parts.len()
        invariant
            i <= parts@.len(),
            all == parts.deep_view(),
            query_parts(request_target@) == Some(all),
            forall|j: int| 0 <= j < i ==> url_decodable(part_value(#[trigger] all[j])),
        decreases parts@.len() - i,
    {
        assert(all[i as int] == parts@[i as int]@);
        let (_, v) = part_of(&parts[i]);
        if !is_url_decodable(v) {
            return false;
        }
        i = i + 1;
    }
    true
}

/// The challenge that a verification is answered with.
pub fn whatsapp_verify_challenge(request_target: &str, env: &Environ) -> (r: Option<String>)
    requires
        is_verifiable(request_target@),
    ensures
        r.deep_view() == verified(request_target@, env@),
{
    let pieces: Vec<String> = split_at_char(request_target, '?');
    if pieces.len() < 2 {
        assert(pieces.deep_view().len() < 2);
        return None;
    }
    assert(pieces.deep_view()[1] == pieces@[1]@);
    let parts: Vec<String> = split_at_char(&pieces[1], '&');
    let ghost all = parts.deep_view();
    let mut mode: Option<String> = None;
    let mut token: Option<String> = None;
    let mut challenge: Option<String> = None;
    let mut i: usize = 0;
    proof {
        reveal_strlit("hub.mode");
        reveal_strlit("hub.verify_token");
        reveal_strlit("hub.challenge");
    }
    while i < parts.len()
        invariant
            i <= parts@.len(),
            all == parts.deep_view(),
            query_parts(request_target@) == Some(all),
            is_verifiable(request_target@),
            "hub.mode"@.len() == 8,
            "hub.verify_token"@.len() == 16,
            "hub.challenge"@.len() == 13,
            mode.deep_view() == parameter(all.take(i as int), "hub.mode"@),
            token.deep_view() == parameter(all.take(i as int), "hub.verify_token"@),
            challenge.deep_view() == parameter(all.take(i as int), "hub.challenge"@),
        decreases parts@.len() - i,
    {
        proof {
            assert(all[i as int] == parts@[i as int]@);
            assert(all.take(i + 1).drop_last() =~= all.take(i as int));
            assert(all.take(i + 1).last() == parts@[i as int]@);
            assert(url_decodable(part_value(all[i as int])));
        }
        let (k, v) = part_of(&parts[i]);
        let w: String = urlencoding_decode(v);
        if same(k, "hub.mode") {
            mode = Some(w);
        } else if same(k, "hub.verify_token") {
            token = Some(w);
        } else if same(k, "hub.challenge") {
            challenge = Some(w);
        }
        i = i + 1;
    }
    assert(all.take(i as int) =~= all);
    if !is_some_text(&mode, "subscribe") {
        return None;
    }
    let expected: Option<&str> = match env.var("WHATSAPP_VERIFY_TOKEN") {
        Some(t) => Some(t),
        None => env.var("PIRS_WHATSAPP_VERIFY_TOKEN"),
    };
    match expected {
        None => None,
        Some(t) => if is_some_text(&token, t) {
            challenge
        } else {
            None
        },
    }
}

/// Without the token that is expected no challenge is handed out.
pub proof fn lemma_challenge_needs_token(target: Seq<char>, env: Map<Seq<char>, Seq<char>>)
    requires
        verified(target, env) is Some,
    ensures
        verify_token(env) is Some,
        query_parts(target) is Some,
        parameter(query_parts(target)->0, "hub.verify_token"@) == verify_token(env),
        parameter(query_parts(target)->0, "hub.mode"@) == Some("subscribe"@),
{
}

/// The channels whose messages come as webhook requests.
#[derive(Debug, Clone, Copy, PartialEq, Eq, Structural)]
pub enum Webhook {
    Discord,
    Slack,
    Whatsapp,
}

/// The first of two values that is there.
pub open spec fn either(a: Option<JsonView>, b: Option<JsonView>) -> Option<JsonView> {
    if a is Some {
        a
    } else {
        b
    }
}

/// A text, or an integer written out.
pub open spec fn id_text(v: JsonView) -> Option<Seq<char>> {
    match text(v) {
        Some(t) => Some(t),
        None => match int64(v) {
            Some(n) => Some(decimal_int(n)),
            None => None,
        },
    }
}

/// Who wrote a Discord message, and what it says.
pub open spec fn discord_message(v: JsonView) -> Option<(Seq<char>, Seq<char>)> {
    let author = either(
        either(field(v, "author_id"@), pointer(v, "/author/id"@)),
        field(v, "user_id"@),
    );
    let content = either(field(v, "content"@), field(v, "text"@));
    match (author, content) {
        (Some(a), Some(c)) => match (id_text(a), text(c)) {
            (Some(peer), Some(t)) => if t.len() > 0 {
                Some((peer, t))
            } else {
                None
            },
            _ => None,
        },
        _ => None,
    }
}

/// Who wrote a Slack message, and what it says; a bot does not count.
pub open spec fn slack_message(v: JsonView) -> Option<(Seq<char>, Seq<char>)> {
    let event = match field(v, "event"@) {
        Some(e) => e,
        None => v,
    };
    let peer = match text_field(event, "user"@) {
        Some(u) => Some(u),
        None => text_field(event, "channel"@),
    };
    if field(event, "bot_id"@) is Some {
        None
    } else {
        match (peer, text_field(event, "text"@)) {
            (Some(p), Some(t)) => if t.len() > 0 {
                Some((p, t))
            } else {
                None
            },
            _ => None,
        }
    }
}

/// The message inside a WhatsApp notification.
pub open spec fn whatsapp_inner(v: JsonView) -> Option<JsonView> {
    match pointer(v, "/entry/0/changes/0/value/messages/0"@) {
        Some(m) => Some(m),
        None => match field(v, "messages"@) {
            Some(list) => item(list, 0),
            None => None,
        },
    }
}

/// The text of a WhatsApp message.
pub open spec fn whatsapp_body(m: JsonView) -> Option<Seq<char>> {
    match pointer(m, "/text/body"@) {
        Some(b) => match text(b) {
            Some(t) => Some(t),
            None => text_field(m, "body"@),
        },
        None => text_field(m, "body"@),
    }
}

/// Who wrote a WhatsApp message, and what it says.
pub open spec fn whatsapp_message(v: JsonView) -> Option<(Seq<char>, Seq<char>)> {
    match whatsapp_inner(v) {
        None => None,
        Some(m) => match (text_field(m, "from"@), whatsapp_body(m)) {
            (Some(p), Some(t)) => Some((p, t)),
            _ => None,
        },
    }
}

/// Who wrote a message of a channel, and what it says.
pub open spec fn webhook_message(w: Webhook, v: JsonView) -> Option<(Seq<char>, Seq<char>)> {
    match w {
        Webhook::Discord => discord_message(v),
        Webhook::Slack => slack_message(v),
        Webhook::Whatsapp => whatsapp_message(v),
    }
}

/// What an optional pair of strings is.
pub open spec fn pair_view(p: Option<(String, String)>) -> Option<(Seq<char>, Seq<char>)> {
    match p {
        Some((a, b)) => Some((a@, b@)),
        None => None,
    }
}

/// Who wrote a Discord message, and what it says.
pub fn extract_discord(v: &Json) -> (r: Option<(String, String)>)
    ensures
        pair_view(r) == discord_message(v@),
{
    let author: Option<&Json> = match v.get("author_id") {
        Some(a) => Some(a),
        None => match v.pointer("/author/id") {
            Some(a) => Some(a),
            None => v.get("user_id"),
        },
    };
    let content: Option<&Json> = match v.get("content") {
        Some(c) => Some(c),
        None => v.get("text"),
    };
    match (author, content) {
        (Some(a), Some(c)) => {
            let peer: String = match a.as_str() {
                Some(t) => owned(t),
                None => match a.as_i64() {
                    Some(n) => i64_text(n),
                    None => {
                        return None;
                    },
                },
            };
            match c.as_str() {
                Some(t) => if t.unicode_len() > 0 {
                    Some((peer, owned(t)))
                } else {
                    None
                },
                None => None,
            }
        },
        _ => None,
    }
}

/// Who wrote a Slack message, and what it says; a bot does not count.
pub fn extract_slack(v: &Json) -> (r: Option<(String, String)>)
    ensures
        pair_view(r) == slack_message(v@),
{
    let event: &Json = match v.get("event") {
        Some(e) => e,
        None => v,
    };
    if event.get("bot_id").is_some() {
        return None;
    }
    let peer: Option<&str> = match event.text_at("user") {
        Some(u) => Some(u),
        None => event.text_at("channel"),
    };
    match (peer, event.text_at("text")) {
        (Some(p), Some(t)) => if t.unicode_len() > 0 {
            Some((owned(p), owned(t)))
        } else {
            None
        },
        _ => None,
    }
}

/// Who wrote a WhatsApp message, and what it says.
pub fn extract_whatsapp(v: &Json) -> (r: Option<(String, String)>)
    ensures
        pair_view(r) == whatsapp_message(v@),
{
    let inner: Option<&Json> = match v.pointer("/entry/0/changes/0/value/messages/0") {
        Some(m) => Some(m),
        None => match v.get("messages") {
            Some(list) => list.at(0),
            None => None,
        },
    };
    match inner {
        None => None,
        Some(m) => {
            let body: Option<&str> = match m.pointer("/text/body") {
                Some(b) => match b.as_str() {
                    Some(t) => Some(t),
                    None => m.text_at("body"),
                },
                None => m.text_at("body"),
            };
            match (m.text_at("from"), body) {
                (Some(p), Some(t)) => Some((owned(p), owned(t))),
                _ => None,
            }
        },
    }
}

/// Who wrote a message of a channel, and what it says.
pub fn extract(webhook: Webhook, v: &Json) -> (r: Option<(String, String)>)
    ensures
        pair_view(r) == webhook_message(webhook, v@),
{
    match webhook {
        Webhook::Discord => extract_discord(v),
        Webhook::Slack => extract_slack(v),
        Webhook::Whatsapp => extract_whatsapp(v),
    }
}

/// The answer to a request that is not let in.
pub open spec fn forbidden() -> Seq<char> {
    "HTTP/1.1 403 Forbidden\r\nContent-Length: 0\r\n\r\n"@
}

/// The answer to a request whose body is no JSON text.
pub open spec fn bad_request() -> Seq<char> {
    "HTTP/1.1 400 Bad Request\r\nContent-Length: 0\r\n\r\n"@
}

/// The answer to a request that holds no message.
pub open spec fn no_content() -> Seq<char> {
    "HTTP/1.1 204 No Content\r\nContent-Length: 0\r\n\r\n"@
}

/// The answer to a request whose message was handled.
pub open spec fn handled() -> Seq<char> {
    "HTTP/1.1 200 OK\r\nContent-Length: 2\r\n\r\nOK"@
}

/// The answer that gives a challenge back.
pub open spec fn challenge_answer(c: Seq<char>) -> Seq<char> {
    "HTTP/1.1 200 OK\r\nContent-Type: text/plain\r\nContent-Length: "@ + decimal(
        encode_utf8(c).len(),
    ) + "\r\n\r\n"@ + c
}

/// What is done with a request: it is answered, or its message is handled first.
#[derive(Debug)]
pub enum WebhookStep {
    Respond(String),
    Handle { peer: String, text: String },
}

/// What is done with a request.
pub enum WebhookStepView {
    Respond(Seq<char>),
    Handle { peer: Seq<char>, text: Seq<char> },
}

impl View for WebhookStep {
    type V = WebhookStepView;

    open spec fn view(&self) -> WebhookStepView {
        match self {
            WebhookStep::Respond(t) => WebhookStepView::Respond(t@),
            WebhookStep::Handle { peer, text } => WebhookStepView::Handle {
                peer: peer@,
                text: text@,
            },
        }
    }
}

/// What is done with the body of a request: a challenge is given back, a message of a peer that
/// may speak is handled.
pub open spec fn body_step(w: Webhook, v: JsonView, allow: AllowView) -> WebhookStepView {
    match text_field(v, "challenge"@) {
        Some(c) => WebhookStepView::Respond(challenge_answer(c)),
        None => match webhook_message(w, v) {
            None => WebhookStepView::Respond(no_content()),
            Some((peer, text)) => if allowed(allow, peer) {
                WebhookStepView::Handle { peer, text }
            } else {
                WebhookStepView::Respond(forbidden())
            },
        },
    }
}

/// The target of a request: the second word of its first line.
pub open spec fn request_target(raw: Seq<char>) -> Option<Seq<char>> {
    let w = words(first_line(raw));
    if w.len() >= 2 {
        Some(w[1])
    } else {
        None
    }
}

/// Whether a request only reads.
pub open spec fn is_get(raw: Seq<char>) -> bool {
    starts_with(first_line(raw), "GET "@)
}

/// The body of a request, without the zero characters at its end.
pub open spec fn request_body(raw: Seq<char>) -> Seq<char> {
    match second_piece(raw, "\r\n\r\n"@) {
        Some(b) => trim_end_char(b, '\0'),
        None => seq![],
    }
}

/// What is done with a request: one that only reads is a verification, any other brings a body.
pub open spec fn request_step(
    w: Webhook,
    raw: Seq<char>,
    allow: AllowView,
    env: Map<Seq<char>, Seq<char>>,
) -> WebhookStepView {
    if is_get(raw) {
        match request_target(raw) {
            Some(t) => match verified(t, env) {
                Some(c) => WebhookStepView::Respond(challenge_answer(c)),
                None => WebhookStepView::Respond(forbidden()),
            },
            None => WebhookStepView::Respond(forbidden()),
        }
    } else {
        match json_of_text(request_body(raw)) {
            None => WebhookStepView::Respond(bad_request()),
            Some(v) => body_step(w, v, allow),
        }
    }
}

/// Whether a request can be worked on: a verification needs a query that can be decoded.
pub open spec fn is_workable(raw: Seq<char>) -> bool {
    is_get(raw) ==> (match request_target(raw) {
        Some(t) => is_verifiable(t),
        None => true,
    })
}

/// The answer that gives a challenge back.
fn answer_challenge(c: &str) -> (r: String)
    ensures
        r@ == challenge_answer(c@),
{
    let n: usize = c.as_bytes().len();
    let mut out: String = owned(
        "HTTP/1.1 200 OK\r\nContent-Type: text/plain\r\nContent-Length: ",
    );
    out.append(&usize_text(n));
    out.append("\r\n\r\n");
    out.append(c);
    out
}

/// What is done with the body of a request.
pub fn webhook_body_step(webhook: Webhook, v: &Json, allowlist: &PairingAllowlist) -> (r:
    WebhookStep)
    ensures
        r@ == body_step(webhook, v@, allowlist@),
{
    if let Some(c) = v.text_at("challenge") {
        return WebhookStep::Respond(answer_challenge(c));
    }
    match extract(webhook, v) {
        None => WebhookStep::Respond(owned("HTTP/1.1 204 No Content\r\nContent-Length: 0\r\n\r\n")),
        Some((peer, text)) => if allowlist.is_allowed(&peer) {
            WebhookStep::Handle { peer, text }
        } else {
            WebhookStep::Respond(owned("HTTP/1.1 403 Forbidden\r\nContent-Length: 0\r\n\r\n"))
        },
    }
}

/// What is done with a request.
pub fn webhook_step(
    webhook: Webhook,
    raw: &str,
    allowlist: &PairingAllowlist,
    env: &Environ,
) -> (r: WebhookStep)
    requires
        is_workable(raw@),
    ensures
        r@ == request_step(webhook, raw@, allowlist@, env@),
{
    let line: &str = first_line_of(raw);
    if starts(line, "GET ") {
        if let Some(target) = second_word(line) {
            if let Some(c) = whatsapp_verify_challenge(target, env) {
                return WebhookStep::Respond(answer_challenge(&c));
            }
        }
        return WebhookStep::Respond(owned("HTTP/1.1 403 Forbidden\r\nContent-Length: 0\r\n\r\n"));
    }
    let body: &str = match second_piece_of(raw, "\r\n\r\n") {
        Some(b) => trim_end_char_of(b, '\0'),
        None => {
            proof {
                reveal_strlit("");
                assert(""@ =~= Seq::<char>::empty());
            }
            ""
        },
    };
    match parse_json(body) {
        None => WebhookStep::Respond(
            owned("HTTP/1.1 400 Bad Request\r\nContent-Length: 0\r\n\r\n"),
        ),
        Some(v) => webhook_body_step(webhook, &v, allowlist),
    }
}

/// Whether a request can be worked on.
pub fn can_work_on(raw: &str) -> (r: bool)
    ensures
        r == is_workable(raw@),
{
    let line: &str = first_line_of(raw);
    if starts(line, "GET ") {
        if let Some(target) = second_word(line) {
            return can_verify(target);
        }
    }
    true
}

/// What is done with a request as it was read from a connection; nothing where its query
/// cannot be decoded.
pub fn webhook_request(
    webhook: Webhook,
    bytes: &[u8],
    allowlist: &PairingAllowlist,
    env: &Environ,
) -> (r: Option<WebhookStep>)
    ensures
        match r {
            Some(s) => is_workable(lossy_text(bytes@)) && s@ == request_step(
                webhook,
                lossy_text(bytes@),
                allowlist@,
                env@,
            ),
            None => !is_workable(lossy_text(bytes@)),
        },
{
    let raw: String = text_of_bytes(bytes);
    if can_work_on(&raw) {
        Some(webhook_step(webhook, &raw, allowlist, env))
    } else {
        None
    }
}

/// The answer to a request whose message was handled.
pub fn handled_answer() -> (r: String)
    ensures
        r@ == handled(),
{
    owned("HTTP/1.1 200 OK\r\nContent-Length: 2\r\n\r\nOK")
}

/// Only a peer that may speak is ever heard.
pub proof fn lemma_only_allowed_peers(
    w: Webhook,
    raw: Seq<char>,
    allow: AllowView,
    env: Map<Seq<char>, Seq<char>>,
)
    ensures
        request_step(w, raw, allow, env) matches WebhookStepView::Handle { peer, .. } ==> allowed(
            allow,
            peer,
        ),
        !allow.allow_all && allow.peers == Set::<Seq<char>>::empty() ==> request_step(
            w,
            raw,
            allow,
            env,
        ) is Respond,
{
}

/// Whether an object holds the text `t` under the key `key`.
pub open spec fn has_text(m: Map<Seq<char>, JsonView>, key: Seq<char>, t: Seq<char>) -> bool {
    m.contains_key(key) && m[key] == JsonView::Text(t)
}

proof fn lemma_author_path(v: JsonView, m: Map<Seq<char>, JsonView>, a: Map<Seq<char>, JsonView>)
    requires
        m.contains_key("author"@),
        m["author"@] == JsonView::Object(a),
    ensures
        pointer(JsonView::Object(m), "/author/id"@) == field(JsonView::Object(a), "id"@),
{
    reveal_strlit("/author/id");
    reveal_strlit("author");
    reveal_strlit("id");
    let end = Seq::<char>::empty();
    assert("/author/id"@ =~= seq!['/'] + "author"@ + (seq!['/'] + "id"@ + end));
    lemma_pointer_leads(v, "author"@, seq!['/'] + "id"@ + end, m, Seq::empty(), 0);
    lemma_pointer_leads(v, "id"@, end, a, Seq::empty(), 0);
    if a.contains_key("id"@) {
        lemma_pointer_leads(a["id"@], "id"@, end, a, Seq::empty(), 0);
    }
}

/// A Discord message is read wherever it names its author and says something: the author by
/// `author_id`, or else by the `id` of `author`, or else by `user_id`, and as a text or a number;
/// what it says by `content`, or else by `text`.
pub proof fn lemma_discord_is_read(
    m: Map<Seq<char>, JsonView>,
    a: Map<Seq<char>, JsonView>,
    peer: Seq<char>,
    n: int,
    said: Seq<char>,
)
    requires
        said.len() > 0,
        has_text(m, "content"@, said) || !m.contains_key("content"@) && has_text(m, "text"@, said),
    ensures
        has_text(m, "author_id"@, peer) ==> discord_message(JsonView::Object(m)) == Some((peer, said)),
        i64::MIN <= n <= i64::MAX && m.contains_key("author_id"@) && m["author_id"@] == JsonView::Int(
            n,
        ) ==> discord_message(JsonView::Object(m)) == Some((decimal_int(n), said)),
        !m.contains_key("author_id"@) && m.contains_key("author"@) && m["author"@]
            == JsonView::Object(a) && has_text(a, "id"@, peer) ==> discord_message(
            JsonView::Object(m),
        ) == Some((peer, said)),
        !m.contains_key("author_id"@) && !m.contains_key("author"@) && has_text(
            m,
            "user_id"@,
            peer,
        ) ==> discord_message(JsonView::Object(m)) == Some((peer, said)),
        !m.contains_key("author_id"@) && !m.contains_key("author"@) && !m.contains_key(
            "user_id"@,
        ) ==> discord_message(JsonView::Object(m)) is None,
{
    let v = JsonView::Object(m);
    if m.contains_key("author"@) && m["author"@] == JsonView::Object(a) {
        lemma_author_path(v, m, a);
    }
    if !m.contains_key("author"@) {
        reveal_strlit("/author/id");
        reveal_strlit("author");
        reveal_strlit("id");
        let behind = seq!['/'] + "id"@;
        assert("/author/id"@ =~= seq!['/'] + "author"@ + behind);
        lemma_pointer_leads(v, "author"@, behind, m, Seq::empty(), 0);
    }
}

/// A Slack message is read out of its `event`, or else out of the request itself: the author by
/// `user`, or else by `channel`, what it says by `text`. What a bot wrote is not.
pub proof fn lemma_slack_is_read(
    outer: Map<Seq<char>, JsonView>,
    m: Map<Seq<char>, JsonView>,
    peer: Seq<char>,
    said: Seq<char>,
)
    requires
        outer.contains_key("event"@) && outer["event"@] == JsonView::Object(m) || outer == m
            && !m.contains_key("event"@),
    ensures
        !m.contains_key("bot_id"@) && has_text(m, "user"@, peer) && has_text(m, "text"@, said)
            && said.len() > 0 ==> slack_message(JsonView::Object(outer)) == Some((peer, said)),
        !m.contains_key("bot_id"@) && !m.contains_key("user"@) && has_text(m, "channel"@, peer)
            && has_text(m, "text"@, said) && said.len() > 0 ==> slack_message(
            JsonView::Object(outer),
        ) == Some((peer, said)),
        m.contains_key("bot_id"@) ==> slack_message(JsonView::Object(outer)) is None,
        !m.contains_key("text"@) || has_text(m, "text"@, Seq::empty()) ==> slack_message(
            JsonView::Object(outer),
        ) is None,
{
}

/// A WhatsApp message is read out of the first message of the first change of the first entry: the
/// author by `from`, what it says by the `body` of its `text`.
pub proof fn lemma_whatsapp_is_read(
    outer: Map<Seq<char>, JsonView>,
    entries: Seq<JsonView>,
    entry: Map<Seq<char>, JsonView>,
    changes: Seq<JsonView>,
    change: Map<Seq<char>, JsonView>,
    value: Map<Seq<char>, JsonView>,
    messages: Seq<JsonView>,
    m: Map<Seq<char>, JsonView>,
    inner: Map<Seq<char>, JsonView>,
    peer: Seq<char>,
    said: Seq<char>,
)
    requires
        outer.contains_key("entry"@) && outer["entry"@] == JsonView::Array(entries),
        entries.len() > 0 && entries[0] == JsonView::Object(entry),
        entry.contains_key("changes"@) && entry["changes"@] == JsonView::Array(changes),
        changes.len() > 0 && changes[0] == JsonView::Object(change),
        change.contains_key("value"@) && change["value"@] == JsonView::Object(value),
        value.contains_key("messages"@) && value["messages"@] == JsonView::Array(messages),
        messages.len() > 0 && messages[0] == JsonView::Object(m),
        has_text(m, "from"@, peer),
        m.contains_key("text"@) && m["text"@] == JsonView::Object(inner),
        has_text(inner, "body"@, said),
    ensures
        whatsapp_message(JsonView::Object(outer)) == Some((peer, said)),
{
    let v = JsonView::Object(outer);
    let end = Seq::<char>::empty();
    let p7 = seq!['/'] + "0"@ + end;
    let p6 = seq!['/'] + "messages"@ + p7;
    let p5 = seq!['/'] + "value"@ + p6;
    let p4 = seq!['/'] + "0"@ + p5;
    let p3 = seq!['/'] + "changes"@ + p4;
    let p2 = seq!['/'] + "0"@ + p3;
    let p1 = seq!['/'] + "entry"@ + p2;
    reveal_strlit("0");
    reveal_strlit("entry");
    reveal_strlit("changes");
    reveal_strlit("value");
    reveal_strlit("messages");
    reveal_strlit("/entry/0/changes/0/value/messages/0");
    assert("/entry/0/changes/0/value/messages/0"@ =~= p1);
    assert("0"@ =~= decimal(0)) by {
        assert(decimal(0)[0] == '0');
    }
    let none = Map::<Seq<char>, JsonView>::empty();
    lemma_pointer_leads(v, "entry"@, p2, outer, Seq::empty(), 0);
    lemma_pointer_leads(v, "0"@, p3, none, entries, 0);
    lemma_pointer_leads(v, "changes"@, p4, entry, Seq::empty(), 0);
    lemma_pointer_leads(v, "0"@, p5, none, changes, 0);
    lemma_pointer_leads(v, "value"@, p6, change, Seq::empty(), 0);
    lemma_pointer_leads(v, "messages"@, p7, value, Seq::empty(), 0);
    lemma_pointer_leads(v, "0"@, end, none, messages, 0);
    lemma_pointer_leads(messages[0], "0"@, end, none, messages, 0);
    let q2 = seq!['/'] + "body"@ + end;
    reveal_strlit("text");
    reveal_strlit("body");
    reveal_strlit("/text/body");
    assert("/text/body"@ =~= seq!['/'] + "text"@ + q2);
    lemma_pointer_leads(v, "text"@, q2, m, Seq::empty(), 0);
    lemma_pointer_leads(v, "body"@, end, inner, Seq::empty(), 0);
    lemma_pointer_leads(inner["body"@], "body"@, end, inner, Seq::empty(), 0);
}

/// What is done with the body of a request: a challenge comes back at the end of the answer; without
/// one, a message of a listed peer is handled as it is, one of any other peer is forbidden, and where
/// there is no message there is nothing to answer.
pub proof fn lemma_body_step(
    w: Webhook,
    m: Map<Seq<char>, JsonView>,
    allow: AllowView,
    c: Seq<char>,
)
    ensures
        has_text(m, "challenge"@, c) ==> body_step(w, JsonView::Object(m), allow)
            == WebhookStepView::Respond(
            "HTTP/1.1 200 OK\r\nContent-Type: text/plain\r\nContent-Length: "@ + decimal(
                encode_utf8(c).len(),
            ) + "\r\n\r\n"@ + c,
        ),
        !m.contains_key("challenge"@) ==> match match w {
            Webhook::Discord => discord_message(JsonView::Object(m)),
            Webhook::Slack => slack_message(JsonView::Object(m)),
            Webhook::Whatsapp => whatsapp_message(JsonView::Object(m)),
        } {
            Some((peer, text)) => if allow.allow_all || allow.peers.contains(peer) {
                body_step(w, JsonView::Object(m), allow) == (WebhookStepView::Handle { peer, text })
            } else {
                body_step(w, JsonView::Object(m), allow) == WebhookStepView::Respond(
                    "HTTP/1.1 403 Forbidden\r\nContent-Length: 0\r\n\r\n"@,
                )
            },
            None => body_step(w, JsonView::Object(m), allow) == WebhookStepView::Respond(
                "HTTP/1.1 204 No Content\r\nContent-Length: 0\r\n\r\n"@,
            ),
        },
{
}

/// The body of a request is what stands between the first empty line and the next one, or the end,
/// but for the zero characters behind it.
pub proof fn lemma_request_body(raw: Seq<char>, k: int, n: int)
    requires
        occurs_at(raw, "\r\n\r\n"@, k),
        forall|j: int| 0 <= j < k ==> !occurs_at(raw, "\r\n\r\n"@, j),
        k + 4 <= n <= raw.len(),
        raw[n - 1] != '\0',
        forall|j: int| n <= j < raw.len() ==> (#[trigger] raw[j]) == '\0',
        forall|j: int| k + 4 <= j < raw.len() ==> !occurs_at(raw, "\r\n\r\n"@, j),
    ensures
        request_body(raw) == raw.subrange(k + 4, n),
{
    reveal_strlit("\r\n\r\n");
    lemma_second_piece(raw, "\r\n\r\n"@, k, raw.len() as int);
    let b = raw.skip(k + 4);
    assert forall|j: int| n - k - 4 <= j < b.len() implies (#[trigger] b[j]) == '\0' by {
        assert(b[j] == raw[j + k + 4]);
    }
    if n > k + 4 {
        assert(b[n - k - 4 - 1] == raw[n - 1]);
    }
    lemma_trim_end_char(b, '\0', n - k - 4);
    assert(b.take(n - k - 4) =~= raw.subrange(k + 4, n));
}

proof fn lemma_part(name: Seq<char>, value: Seq<char>)
    requires
        !name.contains('='),
    ensures
        part_name(name + seq!['='] + value) == name,
        part_value(name + seq!['='] + value) == value,
        part_name(name) == name,
        part_value(name).len() == 0,
{
    lemma_split_once(name, '=', value);
}

/// The last part of a query that gives a parameter a value is the one that counts, and its value is
/// decoded.
pub proof fn lemma_parameter(
    parts: Seq<Seq<char>>,
    name: Seq<char>,
    value: Seq<char>,
    other: Seq<char>,
)
    requires
        !name.contains('='),
        !other.contains('='),
        name != other,
    ensures
        parameter(parts.push(name + seq!['='] + value), name) == Some(url_decoded(value)),
        parameter(parts.push(other + seq!['='] + value), name) == parameter(parts, name),
        parameter(Seq::empty(), name) is None,
{
    lemma_part(name, value);
    lemma_part(other, value);
    assert(parts.push(name + seq!['='] + value).drop_last() =~= parts);
    assert(parts.push(other + seq!['='] + value).drop_last() =~= parts);
}

/// A verification that subscribes and shows the token that is expected gets its challenge back; one
/// that shows another token gets nothing, and nobody does where no token is set.
pub proof fn lemma_subscription(
    path: Seq<char>,
    token: Seq<char>,
    challenge: Seq<char>,
    env: Map<Seq<char>, Seq<char>>,
)
    requires
        !path.contains('?'),
        forall|i: int|
            0 <= i < token.len() ==> stands_for_itself(#[trigger] token[i]) && token[i] != '&'
                && token[i] != '?',
        forall|i: int|
            0 <= i < challenge.len() ==> stands_for_itself(#[trigger] challenge[i]) && challenge[i]
                != '&' && challenge[i] != '?',
    ensures
        ({
            let target = path + seq!['?'] + ("hub.mode=subscribe"@ + seq!['&'] + (
            "hub.verify_token"@ + seq!['='] + token + seq!['&'] + ("hub.challenge"@ + seq!['=']
                + challenge)));
            &&& env.contains_key("WHATSAPP_VERIFY_TOKEN"@) ==> verified(target, env) == if env["WHATSAPP_VERIFY_TOKEN"@]
                == token {
                Some(challenge)
            } else {
                None
            }
            &&& !env.contains_key("WHATSAPP_VERIFY_TOKEN"@) && env.contains_key(
                "PIRS_WHATSAPP_VERIFY_TOKEN"@,
            ) ==> verified(target, env) == if env["PIRS_WHATSAPP_VERIFY_TOKEN"@] == token {
                Some(challenge)
            } else {
                None
            }
            &&& !env.contains_key("WHATSAPP_VERIFY_TOKEN"@) && !env.contains_key(
                "PIRS_WHATSAPP_VERIFY_TOKEN"@,
            ) ==> verified(target, env) is None
        }),
{
    reveal_strlit("hub.mode=subscribe");
    reveal_strlit("hub.mode");
    reveal_strlit("subscribe");
    reveal_strlit("hub.verify_token");
    reveal_strlit("hub.challenge");
    let a = "hub.mode=subscribe"@;
    let b = "hub.verify_token"@ + seq!['='] + token;
    let c = "hub.challenge"@ + seq!['='] + challenge;
    let query = a + seq!['&'] + (b + seq!['&'] + c);
    let target = path + seq!['?'] + query;
    assert(!a.contains('&') && !a.contains('?'));
    assert(!b.contains('&') && !b.contains('?')) by {
        assert forall|i: int| 0 <= i < b.len() implies #[trigger] b[i] != '&' && b[i] != '?' by {
            if i >= 17 {
                assert(b[i] == token[i - 17]);
            }
        }
    }
    assert(!c.contains('&') && !c.contains('?')) by {
        assert forall|i: int| 0 <= i < c.len() implies #[trigger] c[i] != '&' && c[i] != '?' by {
            if i >= 14 {
                assert(c[i] == challenge[i - 14]);
            }
        }
    }
    assert(!query.contains('?')) by {
        assert forall|i: int| 0 <= i < query.len() implies #[trigger] query[i] != '?' by {
            if i < a.len() {
                assert(a.contains(a[i]));
            } else if i > a.len() && i - a.len() - 1 < b.len() {
                assert(query[i] == b[i - a.len() - 1]);
                assert(b.contains(b[i - a.len() - 1]));
            } else if i - a.len() - 1 > b.len() {
                assert(query[i] == c[i - a.len() - 1 - b.len() - 1]);
                assert(c.contains(c[i - a.len() - 1 - b.len() - 1]));
            }
        }
    }
    lemma_split_apart(path, '?', query);
    lemma_split_apart(query, '?', query);
    lemma_split_apart(a, '&', b + seq!['&'] + c);
    lemma_split_apart(b, '&', c);
    lemma_split_apart(c, '&', c);
    let parts = split(query, '&');
    let none = Seq::<Seq<char>>::empty();
    assert(split(target, '?')[1] == query);
    assert(parts =~= none.push(a).push(b).push(c));
    assert(!"hub.mode"@.contains('='));
    assert(!"hub.verify_token"@.contains('='));
    assert(!"hub.challenge"@.contains('='));
    assert(a =~= "hub.mode"@ + seq!['='] + "subscribe"@);
    assert("hub.mode"@ != "hub.verify_token"@) by {
        assert("hub.mode"@.len() != "hub.verify_token"@.len());
    }
    assert("hub.mode"@ != "hub.challenge"@) by {
        assert("hub.mode"@.len() != "hub.challenge"@.len());
    }
    assert("hub.challenge"@ != "hub.verify_token"@) by {
        assert("hub.challenge"@.len() != "hub.verify_token"@.len());
    }
    lemma_parameter(none, "hub.mode"@, "subscribe"@, "hub.challenge"@);
    lemma_parameter(none.push(a), "hub.verify_token"@, token, "hub.mode"@);
    lemma_parameter(none.push(a), "hub.mode"@, token, "hub.verify_token"@);
    lemma_parameter(none.push(a).push(b), "hub.challenge"@, challenge, "hub.mode"@);
    lemma_parameter(none.push(a).push(b), "hub.verify_token"@, challenge, "hub.challenge"@);
    lemma_parameter(none.push(a).push(b), "hub.mode"@, challenge, "hub.challenge"@);
    lemma_decode_plain("subscribe"@);
    lemma_decode_plain(token);
    lemma_decode_plain(challenge);
}

proof fn lemma_decoded_skip(b: Seq<u8>, i: int, n: int)
    requires
        0 <= n <= i <= b.len(),
    ensures
        decoded(b, i) == decoded(b.skip(n), i - n),
    decreases b.len() - i,
{
    let c = b.skip(n);
    if i < b.len() {
        assert(c[i - n] == b[i]);
        lemma_decoded_skip(b, i + 1, n);
        if i + 2 < b.len() {
            assert(c[i - n + 1] == b[i + 1]);
            assert(c[i - n + 2] == b[i + 2]);
            lemma_decoded_skip(b, i + 3, n);
        }
    }
}

/// The number that an ASCII character stands for as a hexadecimal digit, in either case.
pub open spec fn hex_number(c: u8, n: int) -> bool {
    ||| 0 <= n <= 9 && c == '0' as u8 + n
    ||| 10 <= n <= 15 && c == 'a' as u8 + n - 10
    ||| 10 <= n <= 15 && c == 'A' as u8 + n - 10
}

/// How query values are decoded: `+` is a space, and `%` and two hexadecimal digits are the character
/// with that number; what follows is decoded likewise.
pub proof fn lemma_decoded(b: Seq<u8>, h: u8, l: u8, x: int, y: int)
    requires
        hex_number(h, x),
        hex_number(l, y),
    ensures
        decoded(seq!['+' as u8] + b, 0) == seq![' '] + decoded(b, 0),
        decoded(seq!['%' as u8, h, l] + b, 0) == seq![(16 * x + y) as u8 as char] + decoded(b, 0),
        decoded(seq!['%' as u8], 0) == seq!['%'],
{
    let p = seq!['+' as u8] + b;
    lemma_decoded_skip(p, 1, 1);
    assert(p.skip(1) =~= b);
    let q = seq!['%' as u8, h, l] + b;
    lemma_decoded_skip(q, 3, 3);
    assert(q.skip(3) =~= b);
    assert(q[0] == 37 && q[1] == h && q[2] == l);
    assert(hex_byte(h, l) == Some((16 * x + y) as u8));
    let r = seq!['%' as u8];
    assert(decoded(r, 1) =~= Seq::<char>::empty());
    assert(decoded(r, 0) =~= seq!['%']);
}

/// Where there is no notification around it, a WhatsApp message is read out of the first of the
/// `messages` of the request; and what it says may stand in its own `body`.
pub proof fn lemma_whatsapp_plain(
    outer: Map<Seq<char>, JsonView>,
    messages: Seq<JsonView>,
    m: Map<Seq<char>, JsonView>,
    peer: Seq<char>,
    said: Seq<char>,
)
    requires
        !outer.contains_key("entry"@),
        outer.contains_key("messages"@) && outer["messages"@] == JsonView::Array(messages),
        messages.len() > 0 && messages[0] == JsonView::Object(m),
        has_text(m, "from"@, peer),
        !m.contains_key("text"@),
        has_text(m, "body"@, said),
    ensures
        whatsapp_message(JsonView::Object(outer)) == Some((peer, said)),
{
    let v = JsonView::Object(outer);
    reveal_strlit("/entry/0/changes/0/value/messages/0");
    reveal_strlit("entry");
    reveal_strlit("/text/body");
    reveal_strlit("text");
    let p = "/entry/0/changes/0/value/messages/0"@;
    let q = "/text/body"@;
    assert(p =~= seq!['/'] + "entry"@ + p.skip(6));
    assert(p.skip(6)[0] == '/');
    lemma_pointer_leads(v, "entry"@, p.skip(6), outer, Seq::empty(), 0);
    assert(q =~= seq!['/'] + "text"@ + q.skip(5));
    assert(q.skip(5)[0] == '/');
    lemma_pointer_leads(v, "text"@, q.skip(5), m, Seq::empty(), 0);
}

/// A request whose first line is `GET`, a target and the rest only reads, and asks for that target;
/// one whose first line starts otherwise brings a body.
pub proof fn lemma_request_line(target: Seq<char>, version: Seq<char>, rest: Seq<char>, other: Seq<char>)
    requires
        target.len() > 0,
        forall|i: int| 0 <= i < target.len() ==> !is_space(#[trigger] target[i]),
        !version.contains('\n'),
        !other.contains('\n'),
        !starts_with(other, "GET "@),
    ensures
        is_get("GET "@ + target + seq![' '] + version + seq!['\r', '\n'] + rest),
        request_target("GET "@ + target + seq![' '] + version + seq!['\r', '\n'] + rest) == Some(
            target,
        ),
        !is_get(other + seq!['\r', '\n'] + rest),
{
    reveal_strlit("GET ");
    let line = "GET "@ + target + seq![' '] + version;
    assert forall|i: int| 0 <= i < line.len() implies (#[trigger] line[i]) != '\n' by {
        if 4 <= i < 4 + target.len() {
            assert(line[i] == target[i - 4]);
            assert(!is_space(target[i - 4]));
        } else if i > 4 + target.len() {
            let k = i - 5 - target.len();
            assert(line[i] == version[k]);
            assert(version.contains(version[k]));
        }
    }
    assert(!line.contains('\n'));
    lemma_lines_are(line, rest);
    lemma_lines_are(other, rest);
    assert(line.take(4) =~= "GET "@);
    let get = seq!['G', 'E', 'T'];
    let behind = target + seq![' '] + version;
    assert(line =~= get + seq![' '] + behind);
    assert forall|i: int| 0 <= i < get.len() implies !is_space(#[trigger] get[i]) by {}
    lemma_words(get, ' ', behind);
    lemma_words(target, ' ', version);
    assert(words(line)[1] == target);
}

/// What is done with a request: one that only reads gets the challenge of its verification back, or
/// is forbidden; any other is judged by its body, and refused where that is no JSON.
pub proof fn lemma_request_step(
    w: Webhook,
    raw: Seq<char>,
    allow: AllowView,
    env: Map<Seq<char>, Seq<char>>,
    target: Seq<char>,
)
    ensures
        is_get(raw) && request_target(raw) == Some(target) && verified(target, env) is Some
            ==> request_step(w, raw, allow, env) == WebhookStepView::Respond(
            "HTTP/1.1 200 OK\r\nContent-Type: text/plain\r\nContent-Length: "@ + decimal(
                encode_utf8(verified(target, env)->0).len(),
            ) + "\r\n\r\n"@ + verified(target, env)->0,
        ),
        is_get(raw) && request_target(raw) == Some(target) && verified(target, env) is None
            ==> request_step(w, raw, allow, env) == WebhookStepView::Respond(
            "HTTP/1.1 403 Forbidden\r\nContent-Length: 0\r\n\r\n"@,
        ),
        !is_get(raw) && json_of_text(request_body(raw)) is None ==> request_step(w, raw, allow, env)
            == WebhookStepView::Respond("HTTP/1.1 400 Bad Request\r\nContent-Length: 0\r\n\r\n"@),
        !is_get(raw) && json_of_text(request_body(raw)) is Some ==> request_step(w, raw, allow, env)
            == body_step(w, json_of_text(request_body(raw))->0, allow),
        handled() == "HTTP/1.1 200 OK\r\nContent-Length: 2\r\n\r\nOK"@,
{
}

proof fn lemma_ascii_boundary(b: Seq<u8>, i: int)
    requires
        vstd::utf8::valid_utf8(b),
        forall|j: int| 0 <= j < b.len() ==> (#[trigger] b[j]) < 0x80,
        0 <= i <= b.len(),
    ensures
        is_char_boundary(b, i),
{
    if i == b.len() {
        vstd::utf8::is_char_boundary_start_end_of_seq(b);
    } else {
        vstd::utf8::is_char_boundary_iff_not_is_continuation_byte(b, i);
        let x = b[i];
        assert(x < 0x80);
        assert(!vstd::utf8::is_continuation_byte(x));
    }
}

proof fn lemma_ascii_decodable_from(b: Seq<u8>, i: int)
    requires
        vstd::utf8::valid_utf8(b),
        forall|j: int| 0 <= j < b.len() ==> (#[trigger] b[j]) < 0x80,
        0 <= i <= b.len(),
    ensures
        is_decodable(b, i),
    decreases b.len() - i,
{
    if i < b.len() {
        lemma_ascii_decodable_from(b, i + 1);
        if i + 2 < b.len() {
            lemma_ascii_boundary(b, i + 3);
            lemma_ascii_decodable_from(b, i + 3);
        }
    }
}

/// Every value of ASCII characters can be decoded, whatever escapes it holds, and every query that is
/// made of such values can be worked on.
pub proof fn lemma_ascii_decodable(s: Seq<char>, target: Seq<char>)
    requires
        forall|i: int| 0 <= i < s.len() ==> '\0' <= #[trigger] s[i] <= '\u{7f}',
    ensures
        url_decodable(s),
        query_parts(target) is None ==> is_verifiable(target),
        query_parts(target) is Some && (forall|i: int|
            0 <= i < query_parts(target)->0.len() ==> url_decodable(
                part_value(#[trigger] query_parts(target)->0[i]),
            )) ==> is_verifiable(target),
{
    let b = encode_utf8(s);
    assert(vstd::utf8::is_ascii_chars(s));
    vstd::utf8::is_ascii_chars_encode_utf8(s);
    vstd::utf8::encode_utf8_valid_utf8(s);
    assert forall|j: int| 0 <= j < b.len() implies (#[trigger] b[j]) < 0x80 by {
        assert(s[j] <= '\u{7f}');
        assert(b[j] == s[j] as u8);
    }
    lemma_ascii_decodable_from(b, 0);
}

/// Requests that bring a body can always be worked on.
pub proof fn lemma_body_is_workable(raw: Seq<char>)
    requires
        !is_get(raw),
    ensures
        is_workable(raw),
{
}

} // verus!
