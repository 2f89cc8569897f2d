//! The channels: where the gateway listens, who is heard, and how replies are sent.

use vstd::prelude::*;

use crate::claw::pairing::{allowed, is_yes, lemma_yes, says_yes, AllowView, PairingAllowlist};
use crate::claw::webhook::Webhook;
use crate::environ::{env_var, Environ};
use crate::json::{
    field, field_trees, json_of_text, json_str, lemma_pointer_leads, object1, object2, parse_json,
    pointer, push_field, text, Json, JsonView,
};
use crate::text::chars::{chars_of, owned, same, string_of, trim, trim_str};
use crate::text::lines::{lines, lines_of};
use crate::text::number::{decimal, decimal_int, i64_text, lemma_number_round_trip, parse_u64, u64_of, u64_text};
use crate::text::quote::{quoted, quoted_text};
use crate::text::search::{first_chars, head_chars, lemma_prefix, starts_with, strip, strip_prefix};

verus! {

/// The variable that opens the webhook listeners to all interfaces.
pub const PUBLIC_BIND_ENV: &'static str = "PIRS_CLAW_PUBLIC_BIND";

/// The variable that names the host on which the webhook listeners listen.
pub const BIND_ENV: &'static str = "PIRS_CLAW_BIND";

/// The host on which the webhook listeners listen: this machine only, unless the environment
/// says otherwise.
pub open spec fn bind_host(env: Map<Seq<char>, Seq<char>>) -> Seq<char> {
    let named = match env_var(env, BIND_ENV@) {
        Some(h) => trim(h),
        None => seq![],
    };
    if named.len() > 0 {
        named
    } else if says_yes(env_var(env, PUBLIC_BIND_ENV@)) {
        "0.0.0.0"@
    } else {
        "127.0.0.1"@
    }
}

/// The host on which the webhook listeners listen.
pub fn webhook_bind_host(env: &Environ) -> (r: String)
    ensures
        r@ == bind_host(env@),
{
    if let Some(h) = env.var(BIND_ENV) {
        let h: &str = trim_str(h);
        if h.unicode_len() > 0 {
            return owned(h);
        }
    }
    if is_yes(env, PUBLIC_BIND_ENV) {
        owned("0.0.0.0")
    } else {
        owned("127.0.0.1")
    }
}

/// A host and a port.
pub open spec fn host_and_port(host: Seq<char>, port: u16) -> Seq<char> {
    host + ":"@ + decimal(port as nat)
}

/// Where a webhook listener listens, and where it does so if the first is no address.
pub fn webhook_socket_addr(port: u16, env: &Environ) -> (r: (String, String))
    ensures
        r.0@ == host_and_port(bind_host(env@), port),
        r.1@ == host_and_port("127.0.0.1"@, port),
{
    let digits: String = u64_text(port as u64);
    let mut first: String = webhook_bind_host(env);
    first.append(":");
    first.append(&digits);
    let mut second: String = owned("127.0.0.1");
    second.append(":");
    second.append(&digits);
    (first, second)
}

/// Whether listening on a host is listening to everyone.
pub fn binds_publicly(host: &str) -> (r: bool)
    ensures
        r == (host@ == "0.0.0.0"@ || host@ == "::"@),
{
    same(host, "0.0.0.0") || same(host, "::")
}

/// A port that a variable names, or the usual one.
pub open spec fn port_of(v: Option<Seq<char>>, usual: u16) -> u16 {
    match v {
        Some(t) => match parse_u64(t) {
            Some(n) => if n <= u16::MAX {
                n as u16
            } else {
                usual
            },
            None => usual,
        },
        None => usual,
    }
}

/// The port of a webhook listener.
pub fn webhook_port(env: &Environ, port_env: &str, default_port: u16) -> (r: u16)
    ensures
        r == port_of(env_var(env@, port_env@), default_port),
{
    match env.var(port_env) {
        Some(t) => match u64_of(t) {
            Some(n) => if n <= 65535 {
                n as u16
            } else {
                default_port
            },
            None => default_port,
        },
        None => default_port,
    }
}

/// The channels that the gateway knows.
#[derive(Debug, Clone, Copy, PartialEq, Eq, Structural)]
pub enum ChannelKind {
    Telegram,
    Discord,
    Slack,
    Whatsapp,
    Signal,
}

/// The name of a channel.
pub open spec fn channel_name(c: ChannelKind) -> Seq<char> {
    match c {
        ChannelKind::Telegram => "telegram"@,
        ChannelKind::Discord => "discord"@,
        ChannelKind::Slack => "slack"@,
        ChannelKind::Whatsapp => "whatsapp"@,
        ChannelKind::Signal => "signal"@,
    }
}

impl ChannelKind {
    /// The name of this channel.
    pub fn name(&self) -> (r: &'static str)
        ensures
            r@ == channel_name(*self),
    {
        match self {
            ChannelKind::Telegram => "telegram",
            ChannelKind::Discord => "discord",
            ChannelKind::Slack => "slack",
            ChannelKind::Whatsapp => "whatsapp",
            ChannelKind::Signal => "signal",
        }
    }
}

/// Whether a name is that of a channel.
pub open spec fn is_channel(name: Seq<char>) -> bool {
    exists|c: ChannelKind| #[trigger] channel_name(c) == name
}

/// The channel with the given name, or what is said where there is none.
pub fn run_gateway(channel: &str) -> (r: Result<ChannelKind, String>)
    ensures
        match r {
            Ok(c) => channel_name(c) == channel@,
            Err(e) => !is_channel(channel@) && e@ == "unknown channel "@ + quoted_text(channel@)
                + ". Supported: telegram, discord, slack, whatsapp, signal"@,
        },
{
    if same(channel, "telegram") {
        return Ok(ChannelKind::Telegram);
    }
    if same(channel, "discord") {
        return Ok(ChannelKind::Discord);
    }
    if same(channel, "slack") {
        return Ok(ChannelKind::Slack);
    }
    if same(channel, "whatsapp") {
        return Ok(ChannelKind::Whatsapp);
    }
    if same(channel, "signal") {
        return Ok(ChannelKind::Signal);
    }
    assert(!is_channel(channel@)) by {
        assert forall|c: ChannelKind| #[trigger] channel_name(c) != channel@ by {
            match c {
                ChannelKind::Telegram => {},
                ChannelKind::Discord => {},
                ChannelKind::Slack => {},
                ChannelKind::Whatsapp => {},
                ChannelKind::Signal => {},
            }
        }
    }
    let mut out: String = owned("unknown channel ");
    out.append(&quoted(channel));
    out.append(". Supported: telegram, discord, slack, whatsapp, signal");
    Err(out)
}

/// What is said where nobody may speak on a channel.
pub open spec fn empty_list_text(channel: Seq<char>) -> Seq<char> {
    channel
        + ": pairing allowlist is empty (fail closed).\nAdd peer ids to ~/.pirs/claw/allowlist.txt (one per line), or set PIRS_CLAW_ALLOW_ALL=1 for local dev only."@
}

/// Refuses to open a channel to which nobody may speak.
pub fn require_allowlist(allowlist: &PairingAllowlist, channel: &str) -> (r: Result<(), String>)
    ensures
        match r {
            Ok(_) => allowlist@.peers.len() > 0 || allowlist@.allow_all,
            Err(e) => allowlist@.peers.len() == 0 && !allowlist@.allow_all && e@
                == empty_list_text(channel@),
        },
{
    if allowlist.is_empty() {
        let mut out: String = owned(channel);
        out.append(
            ": pairing allowlist is empty (fail closed).\nAdd peer ids to ~/.pirs/claw/allowlist.txt (one per line), or set PIRS_CLAW_ALLOW_ALL=1 for local dev only.",
        );
        return Err(out);
    }
    Ok(())
}

/// A message that came in over a channel.
#[derive(Debug)]
pub struct InboundMessage {
    pub channel_id: String,
    pub peer_id: String,
    pub text: String,
    pub ts: u64,
}

/// A message that came in over a channel at the time `now`.
pub fn inbound(channel: ChannelKind, peer: &str, text: &str, now: u64) -> (r: InboundMessage)
    ensures
        r.channel_id@ == channel_name(channel),
        r.peer_id@ == peer@,
        r.text@ == text@,
        r.ts == now,
{
    InboundMessage {
        channel_id: owned(channel.name()),
        peer_id: owned(peer),
        text: owned(text),
        ts: now,
    }
}

/// What a peer is told: the reply, or what went wrong.
pub fn reply_text(outcome: Result<String, String>) -> (r: String)
    ensures
        r@ == (match outcome {
            Ok(t) => t@,
            Err(e) => "error: "@ + e@,
        }),
{
    match outcome {
        Ok(t) => t,
        Err(e) => {
            let mut out: String = owned("error: ");
            out.append(&e);
            out
        },
    }
}

/// Pieces of `n` characters, the last one what is left.
pub open spec fn pieces(s: Seq<char>, n: nat) -> Seq<Seq<char>>
    decreases s.len(),
{
    if n == 0 || s.len() <= n {
        seq![s]
    } else {
        seq![s.take(n as int)] + pieces(s.skip(n as int), n)
    }
}

/// `s` in chunks of at most `max` characters. An empty text is one empty chunk. With no room
/// at all every character is a chunk, after an empty one.
pub open spec fn chunks(s: Seq<char>, max: nat) -> Seq<Seq<char>> {
    if s.len() == 0 {
        seq![s]
    } else if max == 0 {
        seq![Seq::<char>::empty()] + pieces(s, 1)
    } else {
        pieces(s, max)
    }
}

/// Cuts a text into chunks of at most `max_chars` characters.
pub fn utf8_chunks(s: &str, max_chars: usize) -> (r: Vec<String>)
    ensures
        r.deep_view() == chunks(s@, max_chars as nat),
{
    let cs: Vec<char> = chars_of(s);
    let n: usize = cs.len();
    let mut out: Vec<String> = Vec::new();
    if n == 0 {
        out.push(String::new());
        assert(s@ =~= Seq::<char>::empty());
        assert(out.deep_view() =~= seq![s@]);
        return out;
    }
    let size: usize = if max_chars == 0 {
        1
    } else {
        max_chars
    };
    let ghost done = Seq::<Seq<char>>::empty();
    if max_chars == 0 {
        out.push(String::new());
        proof {
            done = seq![Seq::<char>::empty()];
            assert(out.deep_view() =~= done);
        }
    } else {
        assert(out.deep_view() =~= done);
    }
    let mut at: usize = 0;
    proof {
        assert(s@.skip(0) =~= s@);
        if max_chars > 0 {
            assert(done + pieces(s@, size as nat) =~= pieces(s@, size as nat));
        }
    }
    while n - at > size
        invariant
            at <= n,
            n == cs@.len(),
            cs@ == s@,
            0 < size,
            chunks(s@, max_chars as nat) == out.deep_view() + pieces(
                s@.skip(at as int),
                size as nat,
            ),
        decreases n - at,
    {
        let piece: String = string_of(&cs, at, at + size);
        let ghost before = out.deep_view();
        let ghost rest = s@.skip(at as int);
        out.push(piece);
        proof {
            assert(rest.take(size as int) =~= piece@);
            assert(rest.skip(size as int) =~= s@.skip(at + size));
            assert(out.deep_view() =~= before.push(piece@));
            assert(before + (seq![piece@] + pieces(s@.skip(at + size), size as nat)) =~= before.push(
                piece@,
            ) + pieces(s@.skip(at + size), size as nat));
        }
        at = at + size;
    }
    let last: String = string_of(&cs, at, n);
    let ghost before = out.deep_view();
    out.push(last);
    proof {
        assert(last@ =~= s@.skip(at as int));
        assert(out.deep_view() =~= before.push(last@));
        assert(before + seq![last@] =~= before.push(last@));
    }
    out
}

/// Texts one after the other.
pub open spec fn concatenated(s: Seq<Seq<char>>) -> Seq<char>
    decreases s.len(),
{
    if s.len() == 0 {
        seq![]
    } else {
        s[0] + concatenated(s.skip(1))
    }
}

proof fn lemma_pieces(s: Seq<char>, n: nat)
    requires
        n > 0,
        s.len() > 0,
    ensures
        concatenated(pieces(s, n)) == s,
        forall|i: int|
            0 <= i < pieces(s, n).len() ==> 0 < (#[trigger] pieces(s, n)[i]).len() <= n,
    decreases s.len(),
{
    if s.len() <= n {
        assert(seq![s].skip(1) =~= Seq::<Seq<char>>::empty());
        reveal_with_fuel(concatenated, 2);
        assert(s + Seq::<char>::empty() =~= s);
    } else {
        let rest = s.skip(n as int);
        lemma_pieces(rest, n);
        let p = pieces(s, n);
        assert(p.skip(1) =~= pieces(rest, n));
        assert(s.take(n as int) + rest =~= s);
        assert forall|i: int| 0 <= i < p.len() implies 0 < (#[trigger] p[i]).len() <= n by {
            if i > 0 {
                assert(p[i] == pieces(rest, n)[i - 1]);
            }
        }
    }
}

/// The chunks of a text are that text again, and none is longer than allowed or, unless the
/// text is empty, empty.
pub proof fn lemma_chunks(s: Seq<char>, max: nat)
    requires
        max > 0,
    ensures
        concatenated(chunks(s, max)) == s,
        forall|i: int|
            0 <= i < chunks(s, max).len() ==> (#[trigger] chunks(s, max)[i]).len() <= max && (
            s.len() > 0 ==> chunks(s, max)[i].len() > 0),
{
    if s.len() > 0 {
        lemma_pieces(s, max);
    } else {
        assert(seq![s].skip(1) =~= Seq::<Seq<char>>::empty());
        reveal_with_fuel(concatenated, 2);
        assert(s + Seq::<char>::empty() =~= s);
    }
}

/// The value of the first of two variables that is set.
pub open spec fn either_var(
    env: Map<Seq<char>, Seq<char>>,
    a: Seq<char>,
    b: Seq<char>,
) -> Option<Seq<char>> {
    match env_var(env, a) {
        Some(v) => Some(v),
        None => env_var(env, b),
    }
}

/// The value of the first of two variables that is set, or an error.
fn need_var(env: &Environ, a: &str, b: &str, error: &str) -> (r: Result<String, String>)
    ensures
        match r {
            Ok(v) => either_var(env@, a@, b@) == Some(v@),
            Err(e) => either_var(env@, a@, b@) is None && e@ == error@,
        },
{
    match env.var(a) {
        Some(v) => Ok(owned(v)),
        None => match env.var(b) {
            Some(v) => Ok(owned(v)),
            None => Err(owned(error)),
        },
    }
}

/// A request that posts a JSON body.
#[derive(Debug)]
pub struct HttpPost {
    pub url: String,
    pub authorization: Option<String>,
    pub body: Json,
}

/// A request that posts a JSON body.
pub struct HttpPostView {
    pub url: Seq<char>,
    pub authorization: Option<Seq<char>>,
    pub body: JsonView,
}

impl View for HttpPost {
    type V = HttpPostView;

    open spec fn view(&self) -> HttpPostView {
        HttpPostView {
            url: self.url@,
            authorization: self.authorization.deep_view(),
            body: self.body@,
        }
    }
}

/// What the requests are.
pub open spec fn posts_view(s: Seq<HttpPost>) -> Seq<HttpPostView> {
    Seq::new(s.len(), |i: int| s[i]@)
}

/// A bot of Telegram.
#[derive(Debug)]
pub struct TelegramBot {
    pub token: String,
}

/// The endpoint of a method of Telegram's API.
pub open spec fn telegram_url(token: Seq<char>, method: Seq<char>) -> Seq<char> {
    "https://api.telegram.org/bot"@ + token + "/"@ + method
}

/// The request that sends one chunk of a text.
pub open spec fn telegram_post(
    token: Seq<char>,
    chat: Seq<char>,
    piece: Seq<char>,
) -> HttpPostView {
    HttpPostView {
        url: telegram_url(token, "sendMessage"@),
        authorization: None,
        body: JsonView::Object(
            map!["chat_id"@ => JsonView::Text(chat), "text"@ => JsonView::Text(piece)],
        ),
    }
}

/// The requests that send a text in chunks.
pub open spec fn telegram_posts(
    token: Seq<char>,
    chat: Seq<char>,
    text: Seq<char>,
) -> Seq<HttpPostView> {
    let parts = chunks(text, 3500);
    Seq::new(parts.len(), |i: int| telegram_post(token, chat, parts[i]))
}

impl TelegramBot {
    /// The bot whose token the environment holds.
    pub fn from_env(env: &Environ) -> (r: Result<TelegramBot, String>)
        ensures
            match r {
                Ok(b) => either_var(env@, "TELEGRAM_BOT_TOKEN"@, "PIRS_TELEGRAM_BOT_TOKEN"@) == Some(
                    b.token@,
                ),
                Err(e) => either_var(
                    env@,
                    "TELEGRAM_BOT_TOKEN"@,
                    "PIRS_TELEGRAM_BOT_TOKEN"@,
                ) is None && e@
                    == "telegram: set TELEGRAM_BOT_TOKEN (or PIRS_TELEGRAM_BOT_TOKEN) in env / secrets.env"@,
            },
    {
        match need_var(
            env,
            "TELEGRAM_BOT_TOKEN",
            "PIRS_TELEGRAM_BOT_TOKEN",
            "telegram: set TELEGRAM_BOT_TOKEN (or PIRS_TELEGRAM_BOT_TOKEN) in env / secrets.env",
        ) {
            Ok(token) => Ok(TelegramBot { token }),
            Err(e) => Err(e),
        }
    }

    /// The endpoint of a method.
    pub fn api(&self, method: &str) -> (r: String)
        ensures
            r@ == telegram_url(self.token@, method@),
    {
        let mut out: String = owned("https://api.telegram.org/bot");
        out.append(&self.token);
        out.append("/");
        out.append(method);
        out
    }

    /// Where the next updates are fetched.
    pub fn updates_url(&self, offset: i64) -> (r: String)
        ensures
            r@ == telegram_url(self.token@, "getUpdates"@) + "?timeout=25&offset="@ + decimal_int(
                offset as int,
            ),
    {
        let mut out: String = self.api("getUpdates");
        out.append("?timeout=25&offset=");
        out.append(&i64_text(offset));
        out
    }

    /// The requests that send a text.
    pub fn send(&self, chat_id: &str, text: &str) -> (r: Vec<HttpPost>)
        ensures
            posts_view(r@) == telegram_posts(self.token@, chat_id@, text@),
    {
        let parts: Vec<String> = utf8_chunks(text, 3500);
        let ghost all = parts.deep_view();
        let ghost want = telegram_posts(self.token@, chat_id@, text@);
        let mut out: Vec<HttpPost> = Vec::new();
        let mut i: usize = 0;
        assert(posts_view(out@) =~= want.take(0));
        while i < parts.len()
            invariant
                i <= parts@.len(),
                all == parts.deep_view(),
                all == chunks(text@, 3500),
                want == telegram_posts(self.token@, chat_id@, text@),
                posts_view(out@) == want.take(i as int),
            decreases parts@.len() - i,
        {
            let p: HttpPost = HttpPost {
                url: self.api("sendMessage"),
                authorization: None,
                body: object2("chat_id", json_str(chat_id), "text", json_str(&parts[i])),
            };
            proof {
                assert(all[i as int] == parts@[i as int]@);
                assert(want[i as int] == p@);
                assert(posts_view(out@.push(p)) =~= posts_view(out@).push(p@));
                assert(want.take(i + 1) =~= want.take(i as int).push(p@));
            }
            out.push(p);
            i = i + 1;
        }
        assert(want.take(i as int) =~= want);
        out
    }
}

/// An update of Telegram: its number, and its message where it has one.
#[derive(Debug)]
pub struct TgUpdate {
    pub update_id: i64,
    pub message: Option<TgMessage>,
}

/// A message of Telegram: its chat, its text where it has one, and its author where known.
#[derive(Debug)]
pub struct TgMessage {
    pub chat_id: i64,
    pub text: Option<String>,
    pub from_id: Option<i64>,
}

/// What is done with an update: nothing, its peer is turned away, or its text is handled.
#[derive(Debug)]
pub enum TgAction {
    Skip,
    Refuse { peer: String, user: String },
    Handle { peer: String, text: String },
}

/// What is done with an update.
pub enum TgActionView {
    Skip,
    Refuse { peer: Seq<char>, user: Seq<char> },
    Handle { peer: Seq<char>, text: Seq<char> },
}

impl View for TgAction {
    type V = TgActionView;

    open spec fn view(&self) -> TgActionView {
        match self {
            TgAction::Skip => TgActionView::Skip,
            TgAction::Refuse { peer, user } => TgActionView::Refuse { peer: peer@, user: user@ },
            TgAction::Handle { peer, text } => TgActionView::Handle { peer: peer@, text: text@ },
        }
    }
}

/// The peer of a message: its chat.
pub open spec fn tg_peer(m: TgMessage) -> Seq<char> {
    decimal_int(m.chat_id as int)
}

/// The user of a message: its author, or else its chat.
pub open spec fn tg_user(m: TgMessage) -> Seq<char> {
    match m.from_id {
        Some(id) => decimal_int(id as int),
        None => tg_peer(m),
    }
}

/// What is done with an update: a text is handled where its chat or its user may speak.
pub open spec fn telegram_action(u: TgUpdate, allow: AllowView) -> TgActionView {
    match u.message {
        None => TgActionView::Skip,
        Some(m) => match m.text {
            None => TgActionView::Skip,
            Some(t) => if allowed(allow, tg_peer(m)) || allowed(allow, tg_user(m)) {
                TgActionView::Handle { peer: tg_peer(m), text: t@ }
            } else {
                TgActionView::Refuse { peer: tg_peer(m), user: tg_user(m) }
            },
        },
    }
}

/// What a peer that may not speak is told.
pub fn refusal_text() -> (r: String)
    ensures
        r@
            == "pirs-claw: you are not on the pairing allowlist. Ask the owner to add your chat id."@,
{
    owned("pirs-claw: you are not on the pairing allowlist. Ask the owner to add your chat id.")
}

/// Takes one update: the next fetch starts behind it, whatever is done with it.
pub fn telegram_update(offset: &mut i64, update: &TgUpdate, allowlist: &PairingAllowlist) -> (r:
    TgAction)
    requires
        update.update_id < i64::MAX,
    ensures
        *final(offset) == update.update_id + 1,
        r@ == telegram_action(*update, allowlist@),
{
    *offset = update.update_id + 1;
    match &update.message {
        None => TgAction::Skip,
        Some(m) => match &m.text {
            None => TgAction::Skip,
            Some(t) => {
                let peer: String = i64_text(m.chat_id);
                let user: String = match m.from_id {
                    Some(id) => i64_text(id),
                    None => owned(&peer),
                };
                if !allowlist.is_allowed(&peer) && !allowlist.is_allowed(&user) {
                    TgAction::Refuse { peer, user }
                } else {
                    TgAction::Handle { peer, text: owned(t) }
                }
            },
        },
    }
}

/// Who wrote a Signal message, and what it says, where its author may speak.
pub open spec fn signal_message(v: JsonView, allow: AllowView) -> Option<(Seq<char>, Seq<char>)> {
    let envelope = match field(v, "envelope"@) {
        Some(e) => e,
        None => v,
    };
    let source = match field(envelope, "source"@) {
        Some(s) => Some(s),
        None => field(envelope, "sourceNumber"@),
    };
    let peer = match source {
        Some(s) => text(s),
        None => None,
    };
    let said = match pointer(envelope, "/dataMessage/message"@) {
        Some(m) => text(m),
        None => None,
    };
    match (peer, said) {
        (Some(p), Some(t)) => if p.len() > 0 && allowed(allow, p) && t.len() > 0 {
            Some((p, t))
        } else {
            None
        },
        _ => None,
    }
}

/// Who wrote a Signal message, and what it says, where its author may speak.
pub fn read_signal(v: &Json, allowlist: &PairingAllowlist) -> (r: Option<(String, String)>)
    ensures
        crate::claw::webhook::pair_view(r) == signal_message(v@, allowlist@),
{
    let envelope: &Json = match v.get("envelope") {
        Some(e) => e,
        None => v,
    };
    let source: Option<&Json> = match envelope.get("source") {
        Some(s) => Some(s),
        None => envelope.get("sourceNumber"),
    };
    let peer: Option<&str> = match source {
        Some(s) => s.as_str(),
        None => None,
    };
    let said: Option<&str> = match envelope.pointer("/dataMessage/message") {
        Some(m) => m.as_str(),
        None => None,
    };
    match (peer, said) {
        (Some(p), Some(t)) => if p.unicode_len() > 0 && allowlist.is_allowed(p)
            && t.unicode_len() > 0 {
            Some((owned(p), owned(t)))
        } else {
            None
        },
        _ => None,
    }
}

/// Who wrote the message in a line that `signal-cli` printed, and what it says.
pub fn signal_line(line: &str, allowlist: &PairingAllowlist) -> (r: Option<(String, String)>)
    ensures
        crate::claw::webhook::pair_view(r) == (match json_of_text(line@) {
            Some(v) => signal_message(v, allowlist@),
            None => None,
        }),
{
    match parse_json(line) {
        Some(v) => read_signal(&v, allowlist),
        None => None,
    }
}

/// The account that Signal messages are sent from, or an error.
pub fn signal_account(env: &Environ, error: &str) -> (r: Result<String, String>)
    ensures
        match r {
            Ok(v) => either_var(env@, "SIGNAL_ACCOUNT"@, "PIRS_SIGNAL_ACCOUNT"@) == Some(v@),
            Err(e) => either_var(env@, "SIGNAL_ACCOUNT"@, "PIRS_SIGNAL_ACCOUNT"@) is None && e@
                == error@,
        },
{
    need_var(env, "SIGNAL_ACCOUNT", "PIRS_SIGNAL_ACCOUNT", error)
}

/// The arguments with which `signal-cli` sends a text.
pub fn signal_send_args(account: &str, text: &str, peer: &str) -> (r: Vec<String>)
    ensures
        r.deep_view() == seq!["-a"@, account@, "send"@, "-m"@, text@, peer@],
{
    let mut out: Vec<String> = Vec::new();
    out.push(owned("-a"));
    out.push(owned(account));
    out.push(owned("send"));
    out.push(owned("-m"));
    out.push(owned(text));
    out.push(owned(peer));
    assert(out.deep_view() =~= seq!["-a"@, account@, "send"@, "-m"@, text@, peer@]);
    out
}

/// The arguments with which `signal-cli` fetches messages.
pub fn signal_receive_args(account: &str) -> (r: Vec<String>)
    ensures
        r.deep_view() == seq!["-a"@, account@, "receive"@, "-t"@, "10"@, "--json"@],
{
    let mut out: Vec<String> = Vec::new();
    out.push(owned("-a"));
    out.push(owned(account));
    out.push(owned("receive"));
    out.push(owned("-t"));
    out.push(owned("10"));
    out.push(owned("--json"));
    assert(out.deep_view() =~= seq!["-a"@, account@, "receive"@, "-t"@, "10"@, "--json"@]);
    out
}

/// The request that sends a text to Discord.
pub open spec fn discord_post(token: Seq<char>, peer: Seq<char>, text: Seq<char>) -> HttpPostView {
    let channel = match strip_prefix(peer, "channel:"@) {
        Some(c) => c,
        None => peer,
    };
    HttpPostView {
        url: "https://discord.com/api/v10/channels/"@ + channel + "/messages"@,
        authorization: Some("Bot "@ + token),
        body: JsonView::Object(map!["content"@ => JsonView::Text(first_chars(text, 1900))]),
    }
}

/// The request that sends a text to Discord.
pub fn send_discord(env: &Environ, peer: &str, text: &str) -> (r: Result<HttpPost, String>)
    ensures
        match r {
            Ok(p) => either_var(env@, "DISCORD_BOT_TOKEN"@, "PIRS_DISCORD_BOT_TOKEN"@) is Some && p@
                == discord_post(
                either_var(env@, "DISCORD_BOT_TOKEN"@, "PIRS_DISCORD_BOT_TOKEN"@)->0,
                peer@,
                text@,
            ),
            Err(e) => either_var(env@, "DISCORD_BOT_TOKEN"@, "PIRS_DISCORD_BOT_TOKEN"@) is None
                && e@ == "DISCORD_BOT_TOKEN not set"@,
        },
{
    let token: String = match need_var(
        env,
        "DISCORD_BOT_TOKEN",
        "PIRS_DISCORD_BOT_TOKEN",
        "DISCORD_BOT_TOKEN not set",
    ) {
        Ok(t) => t,
        Err(e) => {
            return Err(e);
        },
    };
    let channel: &str = match strip(peer, "channel:") {
        Some(c) => c,
        None => peer,
    };
    let mut url: String = owned("https://discord.com/api/v10/channels/");
    url.append(channel);
    url.append("/messages");
    let mut authorization: String = owned("Bot ");
    authorization.append(&token);
    Ok(
        HttpPost {
            url,
            authorization: Some(authorization),
            body: object1("content", Json::Text(head_chars(text, 1900))),
        },
    )
}

/// The request that sends a text to Slack.
pub open spec fn slack_post(token: Seq<char>, peer: Seq<char>, text: Seq<char>) -> HttpPostView {
    HttpPostView {
        url: "https://slack.com/api/chat.postMessage"@,
        authorization: Some("Bearer "@ + token),
        body: JsonView::Object(
            map!["channel"@ => JsonView::Text(peer), "text"@ => JsonView::Text(text)],
        ),
    }
}

/// The request that sends a text to Slack.
pub fn send_slack(env: &Environ, peer: &str, text: &str) -> (r: Result<HttpPost, String>)
    ensures
        match r {
            Ok(p) => either_var(env@, "SLACK_BOT_TOKEN"@, "PIRS_SLACK_BOT_TOKEN"@) is Some && p@
                == slack_post(
                either_var(env@, "SLACK_BOT_TOKEN"@, "PIRS_SLACK_BOT_TOKEN"@)->0,
                peer@,
                text@,
            ),
            Err(e) => either_var(env@, "SLACK_BOT_TOKEN"@, "PIRS_SLACK_BOT_TOKEN"@) is None && e@
                == "SLACK_BOT_TOKEN not set"@,
        },
{
    let token: String = match need_var(
        env,
        "SLACK_BOT_TOKEN",
        "PIRS_SLACK_BOT_TOKEN",
        "SLACK_BOT_TOKEN not set",
    ) {
        Ok(t) => t,
        Err(e) => {
            return Err(e);
        },
    };
    let mut authorization: String = owned("Bearer ");
    authorization.append(&token);
    Ok(
        HttpPost {
            url: owned("https://slack.com/api/chat.postMessage"),
            authorization: Some(authorization),
            body: object2("channel", json_str(peer), "text", json_str(text)),
        },
    )
}

/// Whether Slack took a text, going by what it answered.
pub fn slack_accepted(answer: &Json) -> (r: bool)
    ensures
        r == (field(answer@, "ok"@) == Some(JsonView::Bool(true))),
{
    match answer.get("ok") {
        Some(Json::Bool(b)) => *b,
        _ => false,
    }
}

/// The request that sends a text to WhatsApp.
pub open spec fn whatsapp_post(
    token: Seq<char>,
    phone_id: Seq<char>,
    peer: Seq<char>,
    text: Seq<char>,
) -> HttpPostView {
    HttpPostView {
        url: "https://graph.facebook.com/v18.0/"@ + phone_id + "/messages"@,
        authorization: Some("Bearer "@ + token),
        body: JsonView::Object(
            map![
                "messaging_product"@ => JsonView::Text("whatsapp"@),
                "to"@ => JsonView::Text(peer),
                "type"@ => JsonView::Text("text"@),
                "text"@ => JsonView::Object(map!["body"@ => JsonView::Text(first_chars(text, 4000))]),
            ],
        ),
    }
}

/// The token and the phone number with which WhatsApp messages are sent.
pub open spec fn whatsapp_sender(env: Map<Seq<char>, Seq<char>>) -> (
    Option<Seq<char>>,
    Option<Seq<char>>,
) {
    (
        either_var(env, "WHATSAPP_TOKEN"@, "PIRS_WHATSAPP_TOKEN"@),
        either_var(env, "WHATSAPP_PHONE_NUMBER_ID"@, "PIRS_WHATSAPP_PHONE_NUMBER_ID"@),
    )
}

/// The request that sends a text to WhatsApp.
pub fn send_whatsapp(env: &Environ, peer: &str, text: &str) -> (r: Result<HttpPost, String>)
    ensures
        match r {
            Ok(p) => whatsapp_sender(env@).0 is Some && whatsapp_sender(env@).1 is Some && p@
                == whatsapp_post(
                whatsapp_sender(env@).0->0,
                whatsapp_sender(env@).1->0,
                peer@,
                text@,
            ),
            Err(e) => if whatsapp_sender(env@).0 is None {
                e@ == "WHATSAPP_TOKEN not set"@
            } else {
                whatsapp_sender(env@).1 is None && e@ == "WHATSAPP_PHONE_NUMBER_ID not set"@
            },
        },
{
    let token: String = match need_var(
        env,
        "WHATSAPP_TOKEN",
        "PIRS_WHATSAPP_TOKEN",
        "WHATSAPP_TOKEN not set",
    ) {
        Ok(t) => t,
        Err(e) => {
            return Err(e);
        },
    };
    let phone_id: String = match need_var(
        env,
        "WHATSAPP_PHONE_NUMBER_ID",
        "PIRS_WHATSAPP_PHONE_NUMBER_ID",
        "WHATSAPP_PHONE_NUMBER_ID not set",
    ) {
        Ok(t) => t,
        Err(e) => {
            return Err(e);
        },
    };
    let mut url: String = owned("https://graph.facebook.com/v18.0/");
    url.append(&phone_id);
    url.append("/messages");
    let mut authorization: String = owned("Bearer ");
    authorization.append(&token);
    let mut fields: Vec<(String, Json)> = Vec::new();
    push_field(&mut fields, "messaging_product", json_str("whatsapp"));
    push_field(&mut fields, "to", json_str(peer));
    push_field(&mut fields, "type", json_str("text"));
    push_field(&mut fields, "text", object1("body", Json::Text(head_chars(text, 4000))));
    assert(field_trees(fields@) =~= whatsapp_post(token@, phone_id@, peer@, text@).body->Object_0);
    Ok(HttpPost { url, authorization: Some(authorization), body: Json::Object(fields) })
}

/// Where a reply goes.
#[derive(Debug)]
pub enum DeliverTarget {
    Cli,
    Telegram { chat_id: String },
    Discord { peer: String },
    Slack { peer: String },
    Whatsapp { peer: String },
    Signal { peer: String },
}

/// What delivers a reply: it is printed, posted, or handed to `signal-cli`.
#[derive(Debug)]
pub enum Delivery {
    Print(String),
    Telegram(Vec<HttpPost>),
    Discord(HttpPost),
    Slack(HttpPost),
    Whatsapp(HttpPost),
    SignalCli(Vec<String>),
}

/// Finds out how a reply is delivered; on the command line it is always printed.
pub fn deliver_outbound(target: &DeliverTarget, text: &str, env: &Environ) -> (r: Result<
    Delivery,
    String,
>)
    ensures
        match target {
            DeliverTarget::Cli => r matches Ok(Delivery::Print(t)) && t@ == text@,
            DeliverTarget::Telegram { chat_id } => {
                let token = either_var(env@, "TELEGRAM_BOT_TOKEN"@, "PIRS_TELEGRAM_BOT_TOKEN"@);
                match r {
                    Ok(Delivery::Telegram(p)) => token is Some && posts_view(p@) == telegram_posts(
                        token->0,
                        chat_id@,
                        text@,
                    ),
                    Err(e) => token is None && e@
                        == "telegram: set TELEGRAM_BOT_TOKEN (or PIRS_TELEGRAM_BOT_TOKEN) in env / secrets.env"@,
                    _ => false,
                }
            },
            DeliverTarget::Discord { peer } => {
                let token = either_var(env@, "DISCORD_BOT_TOKEN"@, "PIRS_DISCORD_BOT_TOKEN"@);
                match r {
                    Ok(Delivery::Discord(p)) => token is Some && p@ == discord_post(
                        token->0,
                        peer@,
                        text@,
                    ),
                    Err(e) => token is None && e@ == "DISCORD_BOT_TOKEN not set"@,
                    _ => false,
                }
            },
            DeliverTarget::Slack { peer } => {
                let token = either_var(env@, "SLACK_BOT_TOKEN"@, "PIRS_SLACK_BOT_TOKEN"@);
                match r {
                    Ok(Delivery::Slack(p)) => token is Some && p@ == slack_post(
                        token->0,
                        peer@,
                        text@,
                    ),
                    Err(e) => token is None && e@ == "SLACK_BOT_TOKEN not set"@,
                    _ => false,
                }
            },
            DeliverTarget::Whatsapp { peer } => {
                let sender = whatsapp_sender(env@);
                match r {
                    Ok(Delivery::Whatsapp(p)) => sender.0 is Some && sender.1 is Some && p@
                        == whatsapp_post(sender.0->0, sender.1->0, peer@, text@),
                    Err(e) => if sender.0 is None {
                        e@ == "WHATSAPP_TOKEN not set"@
                    } else {
                        sender.1 is None && e@ == "WHATSAPP_PHONE_NUMBER_ID not set"@
                    },
                    _ => false,
                }
            },
            DeliverTarget::Signal { peer } => {
                let account = either_var(env@, "SIGNAL_ACCOUNT"@, "PIRS_SIGNAL_ACCOUNT"@);
                match r {
                    Ok(Delivery::SignalCli(args)) => account is Some && args.deep_view() == seq![
                        "-a"@,
                        account->0,
                        "send"@,
                        "-m"@,
                        text@,
                        peer@,
                    ],
                    Err(e) => account is None && e@ == "SIGNAL_ACCOUNT not set"@,
                    _ => false,
                }
            },
        },
{
    match target {
        DeliverTarget::Cli => Ok(Delivery::Print(owned(text))),
        DeliverTarget::Telegram { chat_id } => match TelegramBot::from_env(env) {
            Ok(bot) => Ok(Delivery::Telegram(bot.send(chat_id, text))),
            Err(e) => Err(e),
        },
        DeliverTarget::Discord { peer } => match send_discord(env, peer, text) {
            Ok(p) => Ok(Delivery::Discord(p)),
            Err(e) => Err(e),
        },
        DeliverTarget::Slack { peer } => match send_slack(env, peer, text) {
            Ok(p) => Ok(Delivery::Slack(p)),
            Err(e) => Err(e),
        },
        DeliverTarget::Whatsapp { peer } => match send_whatsapp(env, peer, text) {
            Ok(p) => Ok(Delivery::Whatsapp(p)),
            Err(e) => Err(e),
        },
        DeliverTarget::Signal { peer } => match signal_account(env, "SIGNAL_ACCOUNT not set") {
            Ok(account) => Ok(Delivery::SignalCli(signal_send_args(&account, text, peer))),
            Err(e) => Err(e),
        },
    }
}

/// On Telegram and Signal, too, only those who may speak are heard.
pub proof fn lemma_only_allowed_are_heard(u: TgUpdate, v: JsonView, allow: AllowView)
    ensures
        telegram_action(u, allow) is Handle ==> u.message is Some && (allowed(
            allow,
            tg_peer(u.message->0),
        ) || allowed(allow, tg_user(u.message->0))),
        signal_message(v, allow) matches Some(m) ==> allowed(allow, m.0),
{
}

/// What came of a fetch of updates from Telegram.
#[derive(Debug)]
pub enum TgPoll {
    Unreachable { error: String },
    Answered { ok: bool, updates: Vec<TgUpdate> },
}

/// What follows a fetch: how many seconds to wait before the next one, what to log, and what to do
/// with each update.
#[derive(Debug)]
pub struct TgRound {
    pub wait_secs: u64,
    pub note: Option<String>,
    pub actions: Vec<TgAction>,
}

/// What the actions are.
pub open spec fn action_views(s: Seq<TgAction>) -> Seq<TgActionView> {
    s.map_values(|a: TgAction| a@)
}

/// What is done with updates.
pub open spec fn telegram_actions(us: Seq<TgUpdate>, allow: AllowView) -> Seq<TgActionView> {
    us.map_values(|u: TgUpdate| telegram_action(u, allow))
}

/// Where the next fetch starts after updates: behind the last of them.
pub open spec fn offset_after(us: Seq<TgUpdate>, offset: int) -> int {
    if us.len() == 0 {
        offset
    } else {
        us.last().update_id + 1
    }
}

/// What follows a fetch of updates. A fetch that failed is logged and tried again after three
/// seconds, one that was turned down after two; otherwise each update is taken in turn.
pub fn run_telegram(poll: &TgPoll, offset: &mut i64, allowlist: &PairingAllowlist) -> (r: TgRound)
    requires
        poll matches TgPoll::Answered { updates, .. } ==> forall|i: int|
            0 <= i < updates@.len() ==> (#[trigger] updates@[i]).update_id < i64::MAX,
    ensures
        match poll {
            TgPoll::Unreachable { error } => r.wait_secs == 3 && r.note.deep_view() == Some(
                "[telegram] getUpdates error: "@ + error@ + "; retry in 3s"@,
            ) && r.actions@.len() == 0 && *final(offset) == *old(offset),
            TgPoll::Answered { ok, updates } => r.note is None && if *ok {
                r.wait_secs == 0 && action_views(r.actions@) == telegram_actions(
                    updates@,
                    allowlist@,
                ) && *final(offset) == offset_after(updates@, *old(offset) as int)
            } else {
                r.wait_secs == 2 && r.actions@.len() == 0 && *final(offset) == *old(offset)
            },
        },
{
    let ghost start = *offset;
    match poll {
        TgPoll::Unreachable { error } => {
            let mut t: String = owned("[telegram] getUpdates error: ");
            t.append(error.as_str());
            t.append("; retry in 3s");
            TgRound { wait_secs: 3, note: Some(t), actions: Vec::new() }
        },
        TgPoll::Answered { ok, updates } => {
            if !*ok {
                return TgRound { wait_secs: 2, note: None, actions: Vec::new() };
            }
            let ghost want = telegram_actions(updates@, allowlist@);
            let mut actions: Vec<TgAction> = Vec::new();
            let n: usize = updates.len();
            let mut i: usize = 0;
            assert(action_views(actions@) =~= want.take(0));
            while i < n
                invariant
                    i <= n,
                    n == updates@.len(),
                    want == telegram_actions(updates@, allowlist@),
                    forall|k: int| 0 <= k < n ==> (#[trigger] updates@[k]).update_id < i64::MAX,
                    action_views(actions@) == want.take(i as int),
                    *offset == offset_after(updates@.take(i as int), start as int),
                decreases n - i,
            {
                let a: TgAction = telegram_update(offset, &updates[i], allowlist);
                let ghost before = action_views(actions@);
                proof {
                    assert(action_views(actions@.push(a)) =~= before.push(a@));
                    assert(want[i as int] == a@);
                    assert(want.take(i + 1) =~= before.push(a@));
                    assert(updates@.take(i + 1).last() == updates@[i as int]);
                }
                actions.push(a);
                i = i + 1;
            }
            assert(want.take(n as int) =~= want);
            assert(updates@.take(n as int) =~= updates@);
            TgRound { wait_secs: 0, note: None, actions }
        },
    }
}

/// The messages in the lines that `signal-cli` printed: of the lines that hold one, who wrote it
/// and what it says.
pub open spec fn signal_messages(ls: Seq<Seq<char>>, allow: AllowView) -> Seq<(Seq<char>, Seq<char>)>
    decreases ls.len(),
{
    if ls.len() == 0 {
        Seq::empty()
    } else {
        let before = signal_messages(ls.drop_last(), allow);
        match json_of_text(ls.last()) {
            Some(v) => match signal_message(v, allow) {
                Some(m) => before.push(m),
                None => before,
            },
            None => before,
        }
    }
}

/// Who wrote the messages, and what they say.
pub open spec fn said(ms: Seq<InboundMessage>) -> Seq<(Seq<char>, Seq<char>)> {
    ms.map_values(|m: InboundMessage| (m.peer_id@, m.text@))
}

/// The messages in what `signal-cli` printed, as they came in at the time `now`.
pub fn run_signal_cli(stdout: &str, allowlist: &PairingAllowlist, now: u64) -> (r: Vec<
    InboundMessage,
>)
    ensures
        said(r@) == signal_messages(lines(stdout@), allowlist@),
        forall|i: int|
            0 <= i < r@.len() ==> (#[trigger] r@[i]).channel_id@ == "signal"@ && r@[i].ts == now,
{
    let ls: Vec<String> = lines_of(stdout);
    let ghost all = ls.deep_view();
    let mut out: Vec<InboundMessage> = Vec::new();
    let mut i: usize = 0;
    assert(said(out@) =~= signal_messages(all.take(0), allowlist@));
    while i < ls.len()
        invariant
            i <= ls@.len(),
            all == ls.deep_view(),
            said(out@) == signal_messages(all.take(i as int), allowlist@),
            forall|k: int|
                0 <= k < out@.len() ==> (#[trigger] out@[k]).channel_id@ == "signal"@ && out@[k].ts
                    == now,
        decreases ls@.len() - i,
    {
        let line: &str = ls[i].as_str();
        proof {
            assert(all[i as int] == line@);
            assert(all.take(i + 1).drop_last() =~= all.take(i as int));
            assert(all.take(i + 1).last() == line@);
        }
        if let Some((peer, text)) = signal_line(line, allowlist) {
            let m: InboundMessage = inbound(
                ChannelKind::Signal,
                peer.as_str(),
                text.as_str(),
                now,
            );
            assert(said(out@.push(m)) =~= said(out@).push((peer@, text@)));
            out.push(m);
        }
        i = i + 1;
    }
    assert(all.take(i as int) =~= all);
    out
}

/// The channel that a webhook belongs to.
pub open spec fn webhook_channel(w: Webhook) -> ChannelKind {
    match w {
        Webhook::Discord => ChannelKind::Discord,
        Webhook::Slack => ChannelKind::Slack,
        Webhook::Whatsapp => ChannelKind::Whatsapp,
    }
}

/// The variable that names the port of a webhook listener.
pub open spec fn port_variable(w: Webhook) -> Seq<char> {
    match w {
        Webhook::Discord => "PIRS_CLAW_DISCORD_PORT"@,
        Webhook::Slack => "PIRS_CLAW_SLACK_PORT"@,
        Webhook::Whatsapp => "PIRS_CLAW_WHATSAPP_PORT"@,
    }
}

/// The usual port of a webhook listener.
pub open spec fn usual_port(w: Webhook) -> u16 {
    match w {
        Webhook::Discord => 8741,
        Webhook::Slack => 8742,
        Webhook::Whatsapp => 8743,
    }
}

/// Where a webhook listener listens: the address, the one to use where that is none, and whether
/// everyone can reach it.
#[derive(Debug)]
pub struct ListenPlan {
    pub addr: String,
    pub fallback: String,
    pub public: bool,
}

/// Where the listener of a webhook listens. It does not where nobody may speak.
pub fn run_webhook_listener(webhook: Webhook, allowlist: &PairingAllowlist, env: &Environ) -> (r:
    Result<ListenPlan, String>)
    ensures
        ({
            let port = port_of(env_var(env@, port_variable(webhook)), usual_port(webhook));
            match r {
                Ok(plan) => (allowlist@.peers.len() > 0 || allowlist@.allow_all) && plan.addr@
                    == host_and_port(bind_host(env@), port) && plan.fallback@ == host_and_port(
                    "127.0.0.1"@,
                    port,
                ) && plan.public == (bind_host(env@) == "0.0.0.0"@ || bind_host(env@) == "::"@),
                Err(e) => allowlist@.peers.len() == 0 && !allowlist@.allow_all && e@
                    == empty_list_text(channel_name(webhook_channel(webhook))),
            }
        }),
{
    let (channel, variable, usual): (&str, &str, u16) = match webhook {
        Webhook::Discord => ("discord", "PIRS_CLAW_DISCORD_PORT", 8741),
        Webhook::Slack => ("slack", "PIRS_CLAW_SLACK_PORT", 8742),
        Webhook::Whatsapp => ("whatsapp", "PIRS_CLAW_WHATSAPP_PORT", 8743),
    };
    match require_allowlist(allowlist, channel) {
        Ok(_) => {},
        Err(e) => return Err(e),
    }
    let port: u16 = webhook_port(env, variable, usual);
    let (addr, fallback): (String, String) = webhook_socket_addr(port, env);
    let host: String = webhook_bind_host(env);
    Ok(ListenPlan { addr, fallback, public: binds_publicly(host.as_str()) })
}

/// The webhook listeners are for this machine only, unless a variable names another host or opens
/// them to all.
pub proof fn lemma_local_by_default(env: Map<Seq<char>, Seq<char>>)
    requires
        env_var(env, BIND_ENV@) matches Some(h) ==> trim(h).len() == 0,
        !says_yes(env_var(env, PUBLIC_BIND_ENV@)),
    ensures
        bind_host(env) == "127.0.0.1"@,
{
}

/// The host of the webhook listeners: what `PIRS_CLAW_BIND` names, without the white space around;
/// without a name every interface where `PIRS_CLAW_PUBLIC_BIND` says yes, and this machine otherwise.
pub proof fn lemma_bind_host(env: Map<Seq<char>, Seq<char>>)
    ensures
        env.contains_key("PIRS_CLAW_BIND"@) && trim(env["PIRS_CLAW_BIND"@]).len() > 0 ==> bind_host(
            env,
        ) == trim(env["PIRS_CLAW_BIND"@]),
        (!env.contains_key("PIRS_CLAW_BIND"@) || trim(env["PIRS_CLAW_BIND"@]).len() == 0)
            && env.contains_key("PIRS_CLAW_PUBLIC_BIND"@) && env["PIRS_CLAW_PUBLIC_BIND"@]
            == seq!['1'] ==> bind_host(env) == "0.0.0.0"@,
        (!env.contains_key("PIRS_CLAW_BIND"@) || trim(env["PIRS_CLAW_BIND"@]).len() == 0)
            && !env.contains_key("PIRS_CLAW_PUBLIC_BIND"@) ==> bind_host(env) == "127.0.0.1"@,
{
    if env.contains_key("PIRS_CLAW_PUBLIC_BIND"@) {
        lemma_yes(env["PIRS_CLAW_PUBLIC_BIND"@]);
    }
}

/// The port of a listener: the number that is written out, where it is a port; the usual one
/// otherwise.
pub proof fn lemma_port(n: u64, t: Seq<char>, usual: u16)
    ensures
        n <= 65535 ==> port_of(Some(decimal(n as nat)), usual) == n,
        n > 65535 ==> port_of(Some(decimal(n as nat)), usual) == usual,
        port_of(None, usual) == usual,
        parse_u64(t) is None ==> port_of(Some(t), usual) == usual,
{
    lemma_number_round_trip(n);
}

/// The channels, and the listeners of those that have one.
pub proof fn lemma_channels(c: ChannelKind, w: Webhook)
    ensures
        channel_name(ChannelKind::Telegram) == "telegram"@,
        channel_name(ChannelKind::Discord) == "discord"@,
        channel_name(ChannelKind::Slack) == "slack"@,
        channel_name(ChannelKind::Whatsapp) == "whatsapp"@,
        channel_name(ChannelKind::Signal) == "signal"@,
        is_channel(channel_name(c)),
        w is Discord ==> channel_name(webhook_channel(w)) == "discord"@ && port_variable(w)
            == "PIRS_CLAW_DISCORD_PORT"@ && usual_port(w) == 8741,
        w is Slack ==> channel_name(webhook_channel(w)) == "slack"@ && port_variable(w)
            == "PIRS_CLAW_SLACK_PORT"@ && usual_port(w) == 8742,
        w is Whatsapp ==> channel_name(webhook_channel(w)) == "whatsapp"@ && port_variable(w)
            == "PIRS_CLAW_WHATSAPP_PORT"@ && usual_port(w) == 8743,
{
}

proof fn lemma_full_pieces(s: Seq<char>, n: nat, i: int)
    requires
        n > 0,
        0 <= i < pieces(s, n).len(),
    ensures
        i < pieces(s, n).len() - 1 ==> pieces(s, n)[i].len() == n,
        pieces(s, n)[i] == s.subrange(i * n, i * n + pieces(s, n)[i].len()),
        i * n + pieces(s, n)[i].len() <= s.len(),
        i == pieces(s, n).len() - 1 ==> i * n + pieces(s, n)[i].len() == s.len(),
    decreases s.len(),
{
    assert(0 * n == 0);
    if s.len() <= n {
        assert(s.subrange(0, s.len() as int) =~= s);
    } else if i == 0 {
        assert(s.take(n as int) =~= s.subrange(0, n as int));
        assert(pieces(s.skip(n as int), n).len() > 0);
    } else {
        let rest = s.skip(n as int);
        lemma_full_pieces(rest, n, i - 1);
        let p = pieces(s, n)[i];
        assert(p == pieces(rest, n)[i - 1]);
        assert((i - 1) * n + n == i * n) by (nonlinear_arith);
        assert(0 <= (i - 1) * n) by (nonlinear_arith)
            requires
                i >= 1,
        ;
        assert(rest.subrange((i - 1) * n, (i - 1) * n + p.len()) =~= s.subrange(
            i * n,
            i * n + p.len(),
        ));
    }
}

/// The chunk at `i` is what stands in the text from character `i` times `max` on, and every chunk
/// but the last is full.
pub proof fn lemma_chunk_at(s: Seq<char>, max: nat, i: int)
    requires
        max > 0,
        0 <= i < chunks(s, max).len(),
    ensures
        i < chunks(s, max).len() - 1 ==> chunks(s, max)[i].len() == max,
        i * max + chunks(s, max)[i].len() <= s.len(),
        chunks(s, max)[i] == s.subrange(i * max, i * max + chunks(s, max)[i].len()),
        i == chunks(s, max).len() - 1 ==> i * max + chunks(s, max)[i].len() == s.len(),
{
    assert(pieces(s, max) =~= chunks(s, max));
    lemma_full_pieces(s, max, i);
}

/// A text goes to Telegram whole: in requests of at most 3500 characters each, all to the method
/// that sends messages and to the same chat, whose texts one behind the other are the text.
pub proof fn lemma_telegram_sends_all(token: Seq<char>, chat: Seq<char>, text: Seq<char>)
    ensures
        ({
            let posts = telegram_posts(token, chat, text);
            let parts = Seq::new(
                posts.len(),
                |i: int| posts[i].body->Object_0["text"@]->Text_0,
            );
            &&& posts.len() > 0
            &&& concatenated(parts) == text
            &&& forall|i: int|
                0 <= i < posts.len() ==> (#[trigger] posts[i]).url
                    == "https://api.telegram.org/bot"@ + token + "/sendMessage"@
                    && posts[i].authorization is None && posts[i].body is Object
                    && posts[i].body->Object_0.contains_key("text"@)
                    && posts[i].body->Object_0["text"@] is Text
                    && posts[i].body->Object_0["text"@]->Text_0.len() <= 3500
                    && posts[i].body->Object_0.contains_key("chat_id"@)
                    && posts[i].body->Object_0["chat_id"@] == JsonView::Text(chat)
        }),
{
    let posts = telegram_posts(token, chat, text);
    let parts = Seq::new(posts.len(), |i: int| posts[i].body->Object_0["text"@]->Text_0);
    reveal_strlit("text");
    reveal_strlit("chat_id");
    reveal_strlit("/");
    reveal_strlit("sendMessage");
    reveal_strlit("/sendMessage");
    assert("text"@.len() != "chat_id"@.len());
    assert("/"@ + "sendMessage"@ =~= "/sendMessage"@);
    lemma_chunks(text, 3500);
    assert(parts =~= chunks(text, 3500));
    assert forall|i: int| 0 <= i < posts.len() implies (#[trigger] posts[i]).url
        == "https://api.telegram.org/bot"@ + token + "/sendMessage"@ by {
        assert("https://api.telegram.org/bot"@ + token + "/"@ + "sendMessage"@
            =~= "https://api.telegram.org/bot"@ + token + ("/"@ + "sendMessage"@));
    }
    assert forall|i: int| 0 <= i < posts.len() implies (#[trigger] posts[i]).body->Object_0["text"@]->Text_0.len()
        <= 3500 by {
        assert(chunks(text, 3500)[i].len() <= 3500);
    }
}

/// What is done with an update of Telegram: a text whose chat or author is listed is handled, whole
/// and for its chat; one of others is refused, and what holds no text is passed over.
pub proof fn lemma_telegram_hears(m: TgMessage, id: i64, t: String, author: i64, allow: AllowView)
    requires
        m.text == Some(t),
        m.from_id == Some(author),
    ensures
        ({
            let u = TgUpdate { update_id: id, message: Some(m) };
            let chat = decimal_int(m.chat_id as int);
            let user = decimal_int(author as int);
            telegram_action(u, allow) == if allow.allow_all || allow.peers.contains(chat)
                || allow.peers.contains(user) {
                TgActionView::Handle { peer: chat, text: t@ }
            } else {
                TgActionView::Refuse { peer: chat, user }
            }
        }),
        telegram_action(TgUpdate { update_id: id, message: None }, allow) is Skip,
        telegram_action(
            TgUpdate { update_id: id, message: Some(TgMessage { text: None, ..m }) },
            allow,
        ) is Skip,
        telegram_action(
            TgUpdate { update_id: id, message: Some(TgMessage { from_id: None, ..m }) },
            allow,
        ) == if allow.allow_all || allow.peers.contains(decimal_int(m.chat_id as int)) {
            TgActionView::Handle { peer: decimal_int(m.chat_id as int), text: t@ }
        } else {
            TgActionView::Refuse {
                peer: decimal_int(m.chat_id as int),
                user: decimal_int(m.chat_id as int),
            }
        },
{
}

/// A Signal message of a listed peer is heard: out of its `envelope`, or else out of the value
/// itself, the author by `source`, or else by `sourceNumber`, what it says by the `message` of
/// `dataMessage`. One of anybody else is not.
pub proof fn lemma_signal_hears(
    outer: Map<Seq<char>, JsonView>,
    m: Map<Seq<char>, JsonView>,
    data: Map<Seq<char>, JsonView>,
    peer: Seq<char>,
    said: Seq<char>,
    allow: AllowView,
)
    requires
        outer.contains_key("envelope"@) && outer["envelope"@] == JsonView::Object(m) || outer == m
            && !m.contains_key("envelope"@),
        m.contains_key("source"@) && m["source"@] == JsonView::Text(peer) || !m.contains_key(
            "source"@,
        ) && m.contains_key("sourceNumber"@) && m["sourceNumber"@] == JsonView::Text(peer),
        m.contains_key("dataMessage"@) && m["dataMessage"@] == JsonView::Object(data),
        data.contains_key("message"@) && data["message"@] == JsonView::Text(said),
        peer.len() > 0,
        said.len() > 0,
    ensures
        signal_message(JsonView::Object(outer), allow) == if allow.allow_all || allow.peers.contains(
            peer,
        ) {
            Some((peer, said))
        } else {
            None
        },
{
    reveal_strlit("/dataMessage/message");
    reveal_strlit("dataMessage");
    reveal_strlit("message");
    let end = Seq::<char>::empty();
    let behind = seq!['/'] + "message"@ + end;
    assert("/dataMessage/message"@ =~= seq!['/'] + "dataMessage"@ + behind);
    let v = JsonView::Object(m);
    lemma_pointer_leads(v, "dataMessage"@, behind, m, Seq::empty(), 0);
    lemma_pointer_leads(v, "message"@, end, data, Seq::empty(), 0);
    lemma_pointer_leads(data["message"@], "message"@, end, data, Seq::empty(), 0);
}

/// The messages in lines: those of the first ones, and behind them those of the others.
pub proof fn lemma_signal_messages(a: Seq<Seq<char>>, b: Seq<Seq<char>>, l: Seq<char>, allow: AllowView)
    ensures
        signal_messages(a + b, allow) == signal_messages(a, allow) + signal_messages(b, allow),
        json_of_text(l) is Some && signal_message(json_of_text(l)->0, allow) is Some
            ==> signal_messages(seq![l], allow) == seq![signal_message(json_of_text(l)->0, allow)->0],
        json_of_text(l) is None || signal_message(json_of_text(l)->0, allow) is None
            ==> signal_messages(seq![l], allow) == Seq::<(Seq<char>, Seq<char>)>::empty(),
    decreases b.len(),
{
    assert(seq![l].drop_last() =~= Seq::<Seq<char>>::empty());
    assert(signal_messages(Seq::<Seq<char>>::empty(), allow) =~= Seq::empty());
    if json_of_text(l) is Some && signal_message(json_of_text(l)->0, allow) is Some {
        assert(signal_messages(seq![l], allow) =~= seq![
            signal_message(json_of_text(l)->0, allow)->0,
        ]);
    }
    if b.len() == 0 {
        assert(a + b =~= a);
        assert(signal_messages(a, allow) + signal_messages(b, allow) =~= signal_messages(a, allow));
    } else {
        assert((a + b).drop_last() =~= a + b.drop_last());
        lemma_signal_messages(a, b.drop_last(), l, allow);
        assert(signal_messages(a + b, allow) =~= signal_messages(a, allow) + signal_messages(
            b,
            allow,
        ));
    }
}

/// The first of two variables that is set counts, whatever the second says.
pub proof fn lemma_either_var(env: Map<Seq<char>, Seq<char>>, a: Seq<char>, b: Seq<char>)
    ensures
        env.contains_key(a) ==> either_var(env, a, b) == Some(env[a]),
        !env.contains_key(a) && env.contains_key(b) ==> either_var(env, a, b) == Some(env[b]),
        !env.contains_key(a) && !env.contains_key(b) ==> either_var(env, a, b) is None,
        whatsapp_sender(env).0 == either_var(env, "WHATSAPP_TOKEN"@, "PIRS_WHATSAPP_TOKEN"@),
        whatsapp_sender(env).1 == either_var(
            env,
            "WHATSAPP_PHONE_NUMBER_ID"@,
            "PIRS_WHATSAPP_PHONE_NUMBER_ID"@,
        ),
{
}

/// What goes to Discord: to the channel that is named, with or without `channel:` in front, the text
/// up to 1900 characters, with the token of the bot.
pub proof fn lemma_discord_post(token: Seq<char>, channel: Seq<char>, text: Seq<char>)
    requires
        !starts_with(channel, "channel:"@),
    ensures
        discord_post(token, "channel:"@ + channel, text) == discord_post(token, channel, text),
        ({
            let p = discord_post(token, channel, text);
            &&& p.url == "https://discord.com/api/v10/channels/"@ + channel + "/messages"@
            &&& p.authorization == Some("Bot "@ + token)
            &&& p.body is Object && p.body->Object_0.contains_key("content"@)
            &&& text.len() <= 1900 ==> p.body->Object_0["content"@] == JsonView::Text(text)
            &&& text.len() > 1900 ==> p.body->Object_0["content"@] == JsonView::Text(text.take(1900))
        }),
{
    lemma_prefix("channel:"@, channel, channel);
}

/// What goes to Slack: the whole text, to the peer, with the token of the bot.
pub proof fn lemma_slack_post(token: Seq<char>, peer: Seq<char>, text: Seq<char>)
    ensures
        ({
            let p = slack_post(token, peer, text);
            &&& p.url == "https://slack.com/api/chat.postMessage"@
            &&& p.authorization == Some("Bearer "@ + token)
            &&& p.body is Object
            &&& p.body->Object_0.contains_key("channel"@) && p.body->Object_0["channel"@]
                == JsonView::Text(peer)
            &&& p.body->Object_0.contains_key("text"@) && p.body->Object_0["text"@]
                == JsonView::Text(text)
        }),
{
    reveal_strlit("channel");
    reveal_strlit("text");
    assert("channel"@.len() != "text"@.len());
}

/// What goes to WhatsApp: the text up to 4000 characters, from the phone number to the peer, with
/// the token.
pub proof fn lemma_whatsapp_post(
    token: Seq<char>,
    phone_id: Seq<char>,
    peer: Seq<char>,
    text: Seq<char>,
)
    ensures
        ({
            let p = whatsapp_post(token, phone_id, peer, text);
            let m = p.body->Object_0;
            &&& p.url == "https://graph.facebook.com/v18.0/"@ + phone_id + "/messages"@
            &&& p.authorization == Some("Bearer "@ + token)
            &&& p.body is Object
            &&& m.contains_key("to"@) && m["to"@] == JsonView::Text(peer)
            &&& m.contains_key("type"@) && m["type"@] == JsonView::Text("text"@)
            &&& m.contains_key("messaging_product"@) && m["messaging_product"@] == JsonView::Text(
                "whatsapp"@,
            )
            &&& m.contains_key("text"@) && m["text"@] is Object
            &&& m["text"@]->Object_0.contains_key("body"@)
            &&& text.len() <= 4000 ==> m["text"@]->Object_0["body"@] == JsonView::Text(text)
            &&& text.len() > 4000 ==> m["text"@]->Object_0["body"@] == JsonView::Text(
                text.take(4000),
            )
        }),
{
    reveal_strlit("to");
    reveal_strlit("type");
    reveal_strlit("text");
    reveal_strlit("messaging_product");
    assert("type"@[1] != "text"@[1]);
    assert("to"@.len() != "type"@.len());
    assert("to"@.len() != "text"@.len());
    assert("messaging_product"@.len() != "to"@.len());
    assert("messaging_product"@.len() != "type"@.len());
    assert("messaging_product"@.len() != "text"@.len());
}

/// Fetching goes on behind the last update, and every update is acted on, in order.
pub proof fn lemma_updates(us: Seq<TgUpdate>, u: TgUpdate, offset: int, allow: AllowView, i: int)
    ensures
        offset_after(Seq::empty(), offset) == offset,
        offset_after(us.push(u), offset) == u.update_id + 1,
        telegram_actions(us, allow).len() == us.len(),
        0 <= i < us.len() ==> telegram_actions(us, allow)[i] == telegram_action(us[i], allow),
{
    assert(us.push(u).last() == u);
}

/// How addresses are written, and what is said where nobody may speak.
pub proof fn lemma_addresses(host: Seq<char>, port: u16, token: Seq<char>, method: Seq<char>)
    ensures
        host_and_port(host, port) == host + ":"@ + decimal(port as nat),
        telegram_url(token, method) == "https://api.telegram.org/bot"@ + token + "/"@ + method,
        starts_with(
            empty_list_text(host),
            host + ": pairing allowlist is empty (fail closed)."@,
        ),
{
    reveal_strlit(": pairing allowlist is empty (fail closed).");
    reveal_strlit(": pairing allowlist is empty (fail closed).\nAdd peer ids to ~/.pirs/claw/allowlist.txt (one per line), or set PIRS_CLAW_ALLOW_ALL=1 for local dev only.");
    let t = empty_list_text(host);
    let p = host + ": pairing allowlist is empty (fail closed)."@;
    assert(t.take(p.len() as int) =~= p);
}

} // verus!
