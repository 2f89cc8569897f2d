//! The chat session: one JSON object per line, in a file that survives restarts.

use vstd::prelude::*;

use crate::ai::message::{
    blocks, blocks_text, messages, AssistantMessage, AssistantView, BlockView, ContentBlock,
    Message, MessageView, StopReason, UserContentView,
};
use crate::environ::{env_var, Environ};
use crate::json::Json;
use crate::record::{
    doc_of_text, doc_text, error_of_text, field_in, json_error, lemma_member, member_in,
    member_number, member_text, number_in, only_at, parse_doc, plain_doc, push_doc, shown_doc, sole, text_in, values_at,
    DocView, DEEPEST,
};
use crate::text::chars::{chars_of, is_space, lemma_trim_fixed, owned, same, trim, trim_str};
use crate::text::lines::{lemma_lines_append, lemma_lines_cons, lines, lines_of};
use crate::text::number::{decimal, u64_text};
use crate::text::path::{join_path, joined};

verus! {

/// One line of the session: when, who, and what.
#[derive(Debug, Clone)]
pub struct SessionLine {
    pub ts: u64,
    pub role: String,
    pub text: String,
}

/// One line of the session.
pub struct LineView {
    pub ts: u64,
    pub role: Seq<char>,
    pub text: Seq<char>,
}

impl View for SessionLine {
    type V = LineView;

    open spec fn view(&self) -> LineView {
        LineView { ts: self.ts, role: self.role@, text: self.text@ }
    }
}

/// What the lines are.
pub open spec fn lines_view(s: Seq<SessionLine>) -> Seq<LineView> {
    Seq::new(s.len(), |i: int| s[i]@)
}

/// A line as JSON, its fields in the order in which they are written.
pub open spec fn line_doc(l: LineView) -> DocView {
    DocView::Object(
        seq![
            ("ts"@, DocView::Int(l.ts as int)),
            ("role"@, DocView::Text(l.role)),
            ("text"@, DocView::Text(l.text)),
        ],
    )
}

/// The line with these members.
pub open spec fn line_of(
    ts: Option<DocView>,
    role: Option<DocView>,
    said: Option<DocView>,
) -> Option<LineView> {
    match (member_number(ts), member_text(role), member_text(said)) {
        (Some(n), Some(r), Some(t)) => Some(LineView { ts: n, role: r, text: t }),
        _ => None,
    }
}

/// The line that a line of the file holds.
pub open spec fn line_in(t: Seq<char>) -> Option<LineView> {
    line_of(member_in(t, "ts"@, 0, 3), member_in(t, "role"@, 1, 3), member_in(t, "text"@, 2, 3))
}

/// Why a line of the file holds no line of a session: what `serde_json` says where it is not JSON,
/// and the line itself where it is.
pub open spec fn line_error(t: Seq<char>) -> LoadErrorView {
    match json_error(t) {
        Some(e) => LoadErrorView::Json(e),
        None => LoadErrorView::Record(t),
    }
}

/// The session that the lines of its file hold, or why the first of them that holds none does not.
/// Blank lines do not count.
pub open spec fn session_of(ls: Seq<Seq<char>>) -> Result<Seq<LineView>, LoadErrorView>
    decreases ls.len(),
{
    if ls.len() == 0 {
        Ok(seq![])
    } else {
        match session_of(ls.drop_last()) {
            Err(e) => Err(e),
            Ok(before) => if trim(ls.last()).len() == 0 {
                Ok(before)
            } else {
                match line_in(ls.last()) {
                    Some(l) => Ok(before.push(l)),
                    None => Err(line_error(ls.last())),
                }
            },
        }
    }
}

/// The session that a file holds.
pub open spec fn session_in(file: Seq<char>) -> Result<Seq<LineView>, LoadErrorView> {
    session_of(lines(file))
}

/// The session file: where it is, and what it holds.
#[derive(Debug)]
pub struct SessionStore {
    path: String,
    file: String,
}

/// The session file.
pub struct StoreView {
    pub path: Seq<char>,
    pub file: Seq<char>,
}

impl View for SessionStore {
    type V = StoreView;

    closed spec fn view(&self) -> StoreView {
        StoreView { path: self.path@, file: self.file@ }
    }
}

/// Why a session cannot be read.
#[derive(Debug)]
pub enum LoadError {
    /// A line that is not JSON, and what `serde_json` says of it.
    Json(String),
    /// A line that is JSON, and no line of a session.
    Record(String),
}

/// Why a session cannot be read.
pub enum LoadErrorView {
    Json(Seq<char>),
    Record(Seq<char>),
}

impl View for LoadError {
    type V = LoadErrorView;

    open spec fn view(&self) -> LoadErrorView {
        match self {
            LoadError::Json(e) => LoadErrorView::Json(e@),
            LoadError::Record(t) => LoadErrorView::Record(t@),
        }
    }
}

/// What is said of a session that cannot be read.
pub open spec fn load_error_text(e: LoadErrorView) -> Seq<char> {
    match e {
        LoadErrorView::Json(e) => e,
        LoadErrorView::Record(t) => "not a line of a session: "@ + t,
    }
}

impl LoadError {
    /// What is said of this error.
    pub fn message(&self) -> (r: String)
        ensures
            r@ == load_error_text(self@),
    {
        match self {
            LoadError::Json(e) => owned(e),
            LoadError::Record(t) => {
                let mut out: String = owned("not a line of a session: ");
                out.append(t);
                out
            },
        }
    }
}

/// Why a line of the file holds no line of a session.
fn why_not(t: &str) -> (r: LoadError)
    ensures
        r@ == line_error(t@),
{
    match error_of_text(t) {
        Some(e) => LoadError::Json(e),
        None => LoadError::Record(owned(t)),
    }
}

/// The line with these members.
fn line_with(ts: Option<&Json>, role: Option<&Json>, said: Option<&Json>) -> (r: Option<SessionLine>)
    ensures
        match r {
            Some(l) => line_of(shown_doc(ts), shown_doc(role), shown_doc(said)) == Some(l@),
            None => line_of(shown_doc(ts), shown_doc(role), shown_doc(said)) is None,
        },
{
    match (number_in(ts), text_in(role), text_in(said)) {
        (Some(n), Some(r), Some(t)) => Some(SessionLine { ts: n, role: owned(r), text: owned(t) }),
        _ => None,
    }
}

/// The line that a line of the file holds.
fn read_line(t: &str) -> (r: Option<SessionLine>)
    ensures
        match r {
            Some(l) => line_in(t@) == Some(l@),
            None => line_in(t@) is None,
        },
{
    match parse_doc(t) {
        Some(d) => line_with(d.sole_at("ts", 0, 3), d.sole_at("role", 1, 3), d.sole_at("text", 2, 3)),
        None => {
            let ts: Option<Json> = field_in(t, "ts");
            let role: Option<Json> = field_in(t, "role");
            let said: Option<Json> = field_in(t, "text");
            line_with(ts.as_ref(), role.as_ref(), said.as_ref())
        },
    }
}

/// The text of a line.
fn write_line(l: &SessionLine) -> (r: String)
    ensures
        r@ == doc_text(line_doc(l@)),
        forall|i: int| 0 <= i < r@.len() ==> #[trigger] r@[i] as u32 >= 0x20,
        r@.len() > 0 && !is_space(r@[0]) && !is_space(r@.last()),
        line_in(r@) == Some(l@),
{
    let mut fields: Vec<(String, Json)> = Vec::new();
    push_doc(&mut fields, "ts", Json::UInt(l.ts));
    push_doc(&mut fields, "role", Json::Text(owned(&l.role)));
    push_doc(&mut fields, "text", Json::Text(owned(&l.text)));
    let j: Json = Json::Object(fields);
    proof {
        assert(j.doc()->Object_0 =~= line_doc(l@)->Object_0);
        lemma_line_doc(l@);
    }
    j.to_doc_text()
}

/// What is written for a line comes back as that line.
proof fn lemma_line_doc(l: LineView)
    ensures
        plain_doc(line_doc(l), DEEPEST as nat),
        line_of(
            sole(line_doc(l), "ts"@, 0, 3),
            sole(line_doc(l), "role"@, 1, 3),
            sole(line_doc(l), "text"@, 2, 3),
        ) == Some(l),
{
    reveal_strlit("ts");
    reveal_strlit("role");
    reveal_strlit("text");
    assert("ts"@.len() == 2 && "role"@.len() == 4 && "text"@.len() == 4);
    assert("role"@[0] == 'r' && "text"@[0] == 't');
    assert("role"@ != "text"@);
    let fields = line_doc(l)->Object_0;
    assert(fields.drop_last().drop_last().drop_last() =~= Seq::empty());
    reveal_with_fuel(values_at, 4);
    reveal_with_fuel(plain_doc, 2);
}

impl SessionStore {
    /// The session at a path; a file that is not there yet holds nothing.
    pub fn open(path: &str, file: Option<&str>) -> (r: SessionStore)
        ensures
            r@.path == path@,
            r@.file == (match file {
                Some(t) => t@,
                None => seq![],
            }),
    {
        SessionStore {
            path: owned(path),
            file: match file {
                Some(t) => owned(t),
                None => String::new(),
            },
        }
    }

    /// Where the session is.
    pub fn path(&self) -> (r: &str)
        ensures
            r@ == self@.path,
    {
        self.path.as_str()
    }

    /// Appends a line at the time `now` and hands back what is to be appended to the file.
    pub fn append(&mut self, role: &str, text: &str, now: u64) -> (r: String)
        ensures
            ({
                let l = LineView { ts: now, role: role@, text: text@ };
                &&& r@ == doc_text(line_doc(l)).push('\n')
                &&& final(self)@ == (StoreView {
                    path: old(self)@.path,
                    file: old(self)@.file + r@,
                })
                &&& (old(self)@.file.len() == 0 || old(self)@.file.last() == '\n')
                    ==> final(self)@.file.last() == '\n' && session_in(final(self)@.file) == (
                match session_in(old(self)@.file) {
                    Ok(before) => Ok::<Seq<LineView>, LoadErrorView>(before.push(l)),
                    Err(e) => Err(e),
                })
            }),
    {
        let line: SessionLine = SessionLine { ts: now, role: owned(role), text: owned(text) };
        let ghost l = line@;
        let mut out: String = write_line(&line);
        let ghost t = out@;
        out.push('\n');
        let ghost before = self.file@;
        self.file.append(&out);
        proof {
            if before.len() == 0 || before.last() == '\n' {
                lemma_append(before, t, l);
            }
        }
        out
    }

    /// The lines of the session, or why the first line of the file that is none is none.
    pub fn load(&self) -> (r: Result<Vec<SessionLine>, LoadError>)
        ensures
            match r {
                Ok(v) => session_in(self@.file) == Ok::<Seq<LineView>, LoadErrorView>(lines_view(v@)),
                Err(e) => session_in(self@.file) == Err::<Seq<LineView>, LoadErrorView>(e@),
            },
    {
        let ls: Vec<String> = lines_of(&self.file);
        let ghost all = lines(self.file@);
        let mut out: Vec<SessionLine> = Vec::new();
        let mut i: usize = 0;
        assert(lines_view(out@) =~= Seq::<LineView>::empty());
        while i < ls.len()
            invariant
                i <= ls@.len(),
                ls.deep_view() == all,
                all == lines(self@.file),
                session_of(all.take(i as int)) == Ok::<Seq<LineView>, LoadErrorView>(lines_view(out@)),
            decreases ls@.len() - i,
        {
            proof {
                assert(ls.deep_view()[i as int] == ls@[i as int]@);
                assert(all.take(i + 1).drop_last() =~= all.take(i as int));
                assert(all.take(i + 1).last() == ls@[i as int]@);
            }
            let t: &str = ls[i].as_str();
            if trim_str(t).unicode_len() > 0 {
                match read_line(t) {
                    Some(l) => {
                        assert(lines_view(out@.push(l)) =~= lines_view(out@).push(l@));
                        out.push(l);
                    },
                    None => {
                        proof {
                            lemma_error_stays(all, i + 1);
                        }
                        return Err(why_not(t));
                    },
                }
            }
            i = i + 1;
        }
        assert(all.take(i as int) =~= all);
        Ok(out)
    }

    /// The session as a conversation: what the user and the assistant said.
    pub fn to_agent_messages(&self) -> (r: Result<Vec<Message>, LoadError>)
        ensures
            match r {
                Ok(v) => session_in(self@.file) matches Ok(s) && messages(v@) == conversation(s),
                Err(e) => session_in(self@.file) == Err::<Seq<LineView>, LoadErrorView>(e@),
            },
    {
        match self.load() {
            Err(e) => Err(e),
            Ok(ls) => Ok(messages_of(&ls)),
        }
    }
}

proof fn lemma_error_stays(ls: Seq<Seq<char>>, i: int)
    requires
        0 <= i <= ls.len(),
        session_of(ls.take(i)) is Err,
    ensures
        session_of(ls) == session_of(ls.take(i)),
    decreases ls.len() - i,
{
    if i < ls.len() {
        assert(ls.drop_last().take(i) =~= ls.take(i));
        lemma_error_stays(ls.drop_last(), i);
    } else {
        assert(ls.take(i) =~= ls);
    }
}

/// A line that is written behind whole lines is read behind them.
proof fn lemma_append(file: Seq<char>, t: Seq<char>, l: LineView)
    requires
        file.len() == 0 || file.last() == '\n',
        forall|i: int| 0 <= i < t.len() ==> #[trigger] t[i] as u32 >= 0x20,
        t.len() > 0,
        !is_space(t[0]),
        !is_space(t.last()),
        line_in(t) == Some(l),
    ensures
        session_in(file + t.push('\n')) == (match session_in(file) {
            Ok(before) => Ok::<Seq<LineView>, LoadErrorView>(before.push(l)),
            Err(e) => Err(e),
        }),
{
    let e = Seq::<char>::empty();
    assert(!t.contains('\n')) by {
        if t.contains('\n') {
            let i = choose|i: int| 0 <= i < t.len() && t[i] == '\n';
            assert(t[i] as u32 >= 0x20);
        }
    }
    if t.len() > 0 {
        assert(t[t.len() - 1] as u32 >= 0x20);
    }
    lemma_lines_cons(t, e);
    assert(t.push('\n') + e =~= t.push('\n'));
    lemma_lines_append(file, t.push('\n'));
    let ls = lines(file + t.push('\n'));
    assert(seq![t] + lines(e) =~= seq![t]);
    assert(ls =~= lines(file).push(t));
    assert(ls.drop_last() =~= lines(file));
    lemma_trim_fixed(t);
}

/// What one line of the session is in a conversation.
pub open spec fn said(l: LineView) -> Option<MessageView> {
    if l.role == "user"@ {
        Some(MessageView::User { content: UserContentView::Text(l.text), timestamp: 0 })
    } else if l.role == "assistant"@ {
        Some(
            MessageView::Assistant(
                AssistantView {
                    content: seq![BlockView::Text(l.text)],
                    stop_reason: StopReason::Stop,
                    error_message: None,
                },
            ),
        )
    } else {
        None
    }
}

/// A session as a conversation: what the user and the assistant said.
pub open spec fn conversation(s: Seq<LineView>) -> Seq<MessageView>
    decreases s.len(),
{
    if s.len() == 0 {
        seq![]
    } else {
        match said(s.last()) {
            Some(m) => conversation(s.drop_last()).push(m),
            None => conversation(s.drop_last()),
        }
    }
}

/// A session as a conversation.
pub fn messages_of(ls: &Vec<SessionLine>) -> (r: Vec<Message>)
    ensures
        messages(r@) == conversation(lines_view(ls@)),
{
    let ghost all = lines_view(ls@);
    let mut out: Vec<Message> = Vec::new();
    let mut i: usize = 0;
    assert(messages(out@) =~= Seq::<MessageView>::empty());
    while i < ls.len()
        invariant
            i <= ls@.len(),
            all == lines_view(ls@),
            messages(out@) == conversation(all.take(i as int)),
        decreases ls@.len() - i,
    {
        let l: &SessionLine = &ls[i];
        proof {
            assert(all.take(i + 1).drop_last() =~= all.take(i as int));
            assert(all.take(i + 1).last() == l@);
        }
        if same(&l.role, "user") {
            let m: Message = Message::user(&l.text);
            assert(messages(out@.push(m)) =~= messages(out@).push(m@));
            out.push(m);
        } else if same(&l.role, "assistant") {
            let mut content: Vec<ContentBlock> = Vec::new();
            content.push(ContentBlock::text(&l.text));
            assert(blocks(content@) =~= seq![BlockView::Text(l.text@)]);
            let m: Message = Message::Assistant(
                AssistantMessage { content, stop_reason: StopReason::Stop, error_message: None },
            );
            assert(messages(out@.push(m)) =~= messages(out@).push(m@));
            out.push(m);
        }
        i = i + 1;
    }
    assert(all.take(i as int) =~= all);
    out
}

/// The conversation that a new prompt continues, where the prompt is the last line of the
/// session: everything before it.
pub open spec fn before_prompt(s: Seq<LineView>) -> Seq<MessageView> {
    let c = conversation(s);
    if s.len() <= 1 {
        seq![]
    } else if c.len() > 0 && c.last() is User {
        c.drop_last()
    } else {
        c
    }
}

/// The conversation that a new prompt continues.
pub fn prior_messages(ls: &Vec<SessionLine>) -> (r: Vec<Message>)
    ensures
        messages(r@) == before_prompt(lines_view(ls@)),
{
    if ls.len() <= 1 {
        let none: Vec<Message> = Vec::new();
        assert(messages(none@) =~= Seq::<MessageView>::empty());
        return none;
    }
    let mut out: Vec<Message> = messages_of(ls);
    let n: usize = out.len();
    if n > 0 {
        assert(messages(out@).last() == out@[n - 1]@);
        if let Message::User(_) = &out[n - 1] {
            assert(messages(out@.drop_last()) =~= messages(out@).drop_last());
            out.pop();
        }
    }
    out
}

/// How a line of the session is shown.
pub open spec fn shown(l: LineView) -> Seq<char> {
    "["@ + decimal(l.ts as nat) + "] "@ + l.role + ": "@ + l.text
}

/// The last lines of a session, as they are shown.
pub open spec fn shown_last(s: Seq<LineView>, last: nat) -> Seq<Seq<char>> {
    let from = if s.len() > last {
        s.len() - last
    } else {
        0
    };
    Seq::new((s.len() - from) as nat, |i: int| shown(s[from + i]))
}

/// The last lines of a session, as they are shown.
pub fn history(ls: &Vec<SessionLine>, last: usize) -> (r: Vec<String>)
    ensures
        r.deep_view() == shown_last(lines_view(ls@), last as nat),
{
    let n: usize = ls.len();
    let from: usize = if n > last {
        n - last
    } else {
        0
    };
    let ghost want = shown_last(lines_view(ls@), last as nat);
    let mut out: Vec<String> = Vec::new();
    let mut i: usize = from;
    assert(out.deep_view() =~= want.take(0));
    while i < n
        invariant
            from <= i <= n,
            n == ls@.len(),
            from == (if n > last {
                n - last
            } else {
                0
            }),
            want == shown_last(lines_view(ls@), last as nat),
            out.deep_view() == want.take(i - from),
        decreases n - i,
    {
        let l: &SessionLine = &ls[i];
        let mut t: String = owned("[");
        t.append(&u64_text(l.ts));
        t.append("] ");
        t.append(&l.role);
        t.append(": ");
        t.append(&l.text);
        let ghost before = out.deep_view();
        out.push(t);
        proof {
            assert(lines_view(ls@)[i as int] == l@);
            assert(want[i - from] == t@);
            assert(out.deep_view() =~= before.push(t@));
            assert(want.take(i + 1 - from) =~= want.take(i - from).push(t@));
        }
        i = i + 1;
    }
    assert(want.take(n - from) =~= want);
    out
}

/// Where the state of the gateway is kept: `.pirs/claw` below the home directory, or below the
/// current one where there is no home.
pub open spec fn state_dir(env: Map<Seq<char>, Seq<char>>) -> Seq<char> {
    let home = match env_var(env, "HOME"@) {
        Some(h) => h,
        None => "."@,
    };
    joined(joined(home, ".pirs"@), "claw"@)
}

/// Where the state of the gateway is kept.
pub fn default_state_dir(env: &Environ) -> (r: String)
    ensures
        r@ == state_dir(env@),
{
    let home: &str = match env.var("HOME") {
        Some(h) => h,
        None => ".",
    };
    join_path(&join_path(home, ".pirs"), "claw")
}

/// Where the session is kept.
pub fn default_session_path(env: &Environ) -> (r: String)
    ensures
        r@ == joined(state_dir(env@), "session.jsonl"@),
{
    join_path(&default_state_dir(env), "session.jsonl")
}

/// A character of a peer's name as it stands in the name of a file: `/` would part directories, and
/// `%` marks what is written otherwise.
pub open spec fn file_char(c: char) -> Seq<char> {
    if c == '/' {
        "%2F"@
    } else if c == '%' {
        "%25"@
    } else {
        seq![c]
    }
}

/// A peer's name as it stands in the name of a file.
pub open spec fn file_name(peer: Seq<char>) -> Seq<char>
    decreases peer.len(),
{
    if peer.len() == 0 {
        seq![]
    } else {
        file_char(peer[0]) + file_name(peer.skip(1))
    }
}

/// Where the session with a peer of a channel is kept.
pub open spec fn peer_path(state: Seq<char>, channel: Seq<char>, peer: Seq<char>) -> Seq<char> {
    state + "/sessions/"@ + channel + "/"@ + file_name(peer) + ".jsonl"@
}

/// Where the session with a peer of a channel is kept.
pub fn peer_session_path(state: &str, channel: &str, peer: &str) -> (r: String)
    ensures
        r@ == peer_path(state@, channel@, peer@),
{
    let mut out: String = owned(state);
    out.append("/sessions/");
    out.append(channel);
    out.append("/");
    let ghost all = out@ + file_name(peer@);
    let cs: Vec<char> = chars_of(peer);
    let mut i: usize = 0;
    assert(cs@.skip(0) =~= cs@);
    while i < cs.len()
        invariant
            i <= cs@.len(),
            all == out@ + file_name(cs@.skip(i as int)),
        decreases cs@.len() - i,
    {
        let ghost before = out@;
        assert(cs@.skip(i as int).skip(1) =~= cs@.skip(i + 1));
        match cs[i] {
            '/' => out.append("%2F"),
            '%' => out.append("%25"),
            c => out.push(c),
        }
        proof {
            let now = file_char(cs@[i as int]);
            let rest = file_name(cs@.skip(i + 1));
            assert(out@ =~= before + now);
            assert(before + (now + rest) =~= out@ + rest);
        }
        i = i + 1;
    }
    assert(all =~= out@);
    out.append(".jsonl");
    out
}

proof fn lemma_file_names_differ(a: Seq<char>, b: Seq<char>)
    requires
        file_name(a) == file_name(b),
    ensures
        a == b,
    decreases a.len(),
{
    reveal_strlit("%2F");
    reveal_strlit("%25");
    let x = file_name(a);
    if a.len() == 0 || b.len() == 0 {
        assert(a =~= b);
    } else {
        let p = file_char(a[0]);
        let q = file_char(b[0]);
        assert(x[0] == p[0] && x[0] == q[0]);
        if p.len() > 1 || q.len() > 1 {
            assert(x[2] == p[2] && x[2] == q[2]);
        }
        assert(a[0] == b[0]);
        assert(file_name(a.skip(1)) =~= x.skip(p.len() as int));
        assert(file_name(b.skip(1)) =~= x.skip(p.len() as int));
        lemma_file_names_differ(a.skip(1), b.skip(1));
        assert(a =~= seq![a[0]] + a.skip(1));
        assert(b =~= seq![b[0]] + b.skip(1));
    }
}

/// Different peers of a channel have different sessions.
pub proof fn lemma_peers_apart(
    state: Seq<char>,
    channel: Seq<char>,
    peer: Seq<char>,
    other: Seq<char>,
)
    requires
        peer != other,
    ensures
        peer_path(state, channel, peer) != peer_path(state, channel, other),
{
    let head = state + "/sessions/"@ + channel + "/"@;
    let p = peer_path(state, channel, peer);
    let q = peer_path(state, channel, other);
    if p == q {
        let tail = ".jsonl"@.len() as int;
        assert(p.subrange(head.len() as int, p.len() - tail) =~= file_name(peer));
        assert(q.subrange(head.len() as int, q.len() - tail) =~= file_name(other));
        lemma_file_names_differ(peer, other);
    }
}

/// The file of a session stands in the directory of its channel.
pub proof fn lemma_peer_stays_in(peer: Seq<char>)
    ensures
        !file_name(peer).contains('/'),
    decreases peer.len(),
{
    reveal_strlit("%2F");
    reveal_strlit("%25");
    if peer.len() > 0 {
        lemma_peer_stays_in(peer.skip(1));
        let p = file_char(peer[0]);
        let rest = file_name(peer.skip(1));
        assert forall|i: int| 0 <= i < (p + rest).len() implies (#[trigger] (p + rest)[i]) != '/' by {
            if i >= p.len() {
                assert((p + rest)[i] == rest[i - p.len()]);
                assert(rest.contains(rest[i - p.len()]));
            }
        }
    }
}

/// Where the schedule is kept.
pub fn default_schedule_path(env: &Environ) -> (r: String)
    ensures
        r@ == joined(state_dir(env@), "schedule.json"@),
{
    join_path(&default_state_dir(env), "schedule.json")
}

/// What the assistant is told about itself.
pub fn claw_system_prompt() -> (r: String)
    ensures
        r@
            == "You are pirs-claw, a lean personal assistant (not a coding agent).\nBe helpful, concise, and honest. Remember durable facts the user states.\nYou are intentionally thinner than OpenClaw/Hermes: CLI + memory + schedules."@,
{
    owned(
        "You are pirs-claw, a lean personal assistant (not a coding agent).\nBe helpful, concise, and honest. Remember durable facts the user states.\nYou are intentionally thinner than OpenClaw/Hermes: CLI + memory + schedules.",
    )
}

/// Refuses to chat without a key.
pub fn require_llm_key(key: Option<&str>) -> (r: Result<(), String>)
    ensures
        match r {
            Ok(_) => key matches Some(k) && trim(k@).len() > 0,
            Err(e) => !(key matches Some(k) && trim(k@).len() > 0) && e@
                == "no API key for chat: set DASHSCOPE_API_KEY, DEEPSEEK_API_KEY, or OPENAI_API_KEY (e.g. source ~/.pirs/secrets.env)"@,
        },
{
    if let Some(k) = key {
        if trim_str(k).unicode_len() > 0 {
            return Ok(());
        }
    }
    Err(
        owned(
            "no API key for chat: set DASHSCOPE_API_KEY, DEEPSEEK_API_KEY, or OPENAI_API_KEY (e.g. source ~/.pirs/secrets.env)",
        ),
    )
}

/// What a message says, where it is one of the assistant and not blank.
pub open spec fn reply_in(m: MessageView) -> Option<Seq<char>> {
    match m {
        MessageView::Assistant(a) => if trim(blocks_text(a.content)).len() > 0 {
            Some(blocks_text(a.content))
        } else {
            None
        },
        _ => None,
    }
}

/// The last thing that the assistant said, where it said anything; nothing is made up.
pub open spec fn last_reply(s: Seq<MessageView>) -> Option<Seq<char>>
    decreases s.len(),
{
    if s.len() == 0 {
        None
    } else if reply_in(s.last()) is Some {
        reply_in(s.last())
    } else {
        last_reply(s.drop_last())
    }
}

/// The last thing that the assistant said.
pub fn extract_assistant_reply(msgs: &[Message]) -> (r: Option<String>)
    ensures
        r.deep_view() == last_reply(messages(msgs@)),
{
    let ghost all = messages(msgs@);
    let mut i: usize = msgs.len();
    assert(all.take(i as int) =~= all);
    while i > 0
        invariant
            i <= msgs@.len(),
            all == messages(msgs@),
            last_reply(all) == last_reply(all.take(i as int)),
        decreases i,
    {
        proof {
            assert(all.take(i as int).drop_last() =~= all.take(i - 1));
            assert(all.take(i as int).last() == msgs@[i - 1]@);
        }
        i = i - 1;
        if let Message::Assistant(a) = &msgs[i] {
            let t: String = a.text();
            if trim_str(&t).unicode_len() > 0 {
                return Some(t);
            }
        }
    }
    None
}

/// A session as a conversation: what was said in its first lines, and behind it what was said in the
/// others. What the user said is a message of the user, what the assistant said one of the assistant,
/// with that text and nothing else, and the lines of others say nothing.
pub proof fn lemma_conversation(a: Seq<LineView>, b: Seq<LineView>, l: LineView)
    ensures
        conversation(a + b) == conversation(a) + conversation(b),
        conversation(Seq::empty()) == Seq::<MessageView>::empty(),
        l.role == "user"@ ==> conversation(seq![l]) == seq![
            MessageView::User { content: UserContentView::Text(l.text), timestamp: 0 },
        ],
        l.role == "assistant"@ ==> conversation(seq![l]) == seq![
            MessageView::Assistant(
                AssistantView {
                    content: seq![BlockView::Text(l.text)],
                    stop_reason: StopReason::Stop,
                    error_message: None,
                },
            ),
        ],
        l.role != "user"@ && l.role != "assistant"@ ==> conversation(seq![l]).len() == 0,
    decreases b.len(),
{
    reveal_strlit("user");
    reveal_strlit("assistant");
    assert("user"@.len() != "assistant"@.len());
    let none = Seq::<LineView>::empty();
    assert(conversation(none) =~= Seq::<MessageView>::empty());
    assert(seq![l].drop_last() =~= none);
    if said(l) is Some {
        assert(conversation(seq![l]) =~= seq![said(l)->0]);
    }
    if b.len() == 0 {
        assert(a + b =~= a);
        assert(conversation(a) + conversation(b) =~= conversation(a));
    } else {
        assert((a + b).drop_last() =~= a + b.drop_last());
        lemma_conversation(a, b.drop_last(), l);
        assert(conversation(a + b) =~= conversation(a) + conversation(b));
    }
}

/// A prompt of the user continues all that was said before it.
pub proof fn lemma_prompt_continues(s: Seq<LineView>, prompt: LineView)
    requires
        prompt.role == "user"@,
    ensures
        before_prompt(s.push(prompt)) == conversation(s),
{
    let all = s.push(prompt);
    assert(all =~= s + seq![prompt]);
    lemma_conversation(s, seq![prompt], prompt);
    assert(conversation(all).drop_last() =~= conversation(s));
    if s.len() == 0 {
        assert(conversation(s) =~= Seq::<MessageView>::empty());
    }
}

/// What is shown of a session: its last lines, no more than wanted and in their order, each with
/// its time, who spoke, and all that was said.
pub proof fn lemma_shown_last(s: Seq<LineView>, last: nat, i: int)
    ensures
        shown_last(s, last).len() == if s.len() < last {
            s.len()
        } else {
            last
        },
        0 <= i < shown_last(s, last).len() ==> shown_last(s, last)[shown_last(s, last).len() - 1 - i]
            == "["@ + decimal(s[s.len() - 1 - i].ts as nat) + "] "@ + s[s.len() - 1 - i].role + ": "@
            + s[s.len() - 1 - i].text,
{
}

/// Where the state is kept: `.pirs/claw` below the home directory, or below the current one.
pub proof fn lemma_state_dir(env: Map<Seq<char>, Seq<char>>)
    ensures
        env.contains_key("HOME"@) && env["HOME"@].len() > 0 && env["HOME"@].last() != '/'
            ==> state_dir(env) == env["HOME"@] + "/.pirs/claw"@,
        !env.contains_key("HOME"@) ==> state_dir(env) == "./.pirs/claw"@,
{
    reveal_strlit(".pirs");
    reveal_strlit("claw");
    reveal_strlit(".");
    reveal_strlit("/.pirs/claw");
    reveal_strlit("./.pirs/claw");
    let home = if env.contains_key("HOME"@) {
        env["HOME"@]
    } else {
        "."@
    };
    if home.len() > 0 && home.last() != '/' {
        let a = home.push('/') + ".pirs"@;
        assert(a.last() == 's');
        assert(a.push('/') + "claw"@ =~= home + "/.pirs/claw"@);
        assert("."@ + "/.pirs/claw"@ =~= "./.pirs/claw"@);
    }
}

/// How a peer's name is written in the name of a file: character by character, `/` and `%` as the
/// `%` and two digits that stand for them, everything else as it is.
pub proof fn lemma_file_name(a: Seq<char>, b: Seq<char>, c: char)
    ensures
        file_name(a + b) == file_name(a) + file_name(b),
        file_name(Seq::empty()) == Seq::<char>::empty(),
        file_name(seq!['/']) == seq!['%', '2', 'F'],
        file_name(seq!['%']) == seq!['%', '2', '5'],
        c != '/' && c != '%' ==> file_name(seq![c]) == seq![c],
    decreases a.len(),
{
    reveal_strlit("%2F");
    reveal_strlit("%25");
    assert(file_name(Seq::<char>::empty()) =~= Seq::<char>::empty());
    assert(seq!['/'].skip(1) =~= Seq::<char>::empty());
    assert(seq!['%'].skip(1) =~= Seq::<char>::empty());
    assert(seq![c].skip(1) =~= Seq::<char>::empty());
    assert(file_name(seq!['/']) =~= seq!['%', '2', 'F']);
    assert(file_name(seq!['%']) =~= seq!['%', '2', '5']);
    if c != '/' && c != '%' {
        assert(file_name(seq![c]) =~= seq![c]);
    }
    if a.len() == 0 {
        assert(a + b =~= b);
        assert(file_name(a) + file_name(b) =~= file_name(b));
    } else {
        assert((a + b).skip(1) =~= a.skip(1) + b);
        assert((a + b)[0] == a[0]);
        lemma_file_name(a.skip(1), b, c);
        assert(file_name(a + b) =~= file_name(a) + file_name(b));
    }
}

/// The reply is what the last message of the assistant that says anything says: whatever the user
/// and the tools said, and whatever the assistant said before.
pub proof fn lemma_last_reply(s: Seq<MessageView>, i: int)
    requires
        forall|j: int|
            0 <= j && i < j < s.len() ==> !((#[trigger] s[j]) is Assistant) || trim(
                blocks_text(s[j]->Assistant_0.content),
            ).len() == 0,
    ensures
        0 <= i < s.len() && s[i] is Assistant && trim(blocks_text(s[i]->Assistant_0.content)).len() > 0
            ==> last_reply(s) == Some(blocks_text(s[i]->Assistant_0.content)),
        i < 0 ==> last_reply(s) is None,
    decreases s.len(),
{
    if s.len() > 0 && i < s.len() - 1 {
        let r = s.drop_last();
        assert forall|j: int| 0 <= j && i < j < r.len() implies !((#[trigger] r[j]) is Assistant) || trim(
            blocks_text(r[j]->Assistant_0.content),
        ).len() == 0 by {
            assert(r[j] == s[j]);
        }
        assert(s[s.len() - 1] == s.last());
        lemma_last_reply(r, i);
    }
}

/// A session is read line by line: blank lines are passed over, every other one is a line of the
/// session, and the first that is none is the error, whatever comes behind it.
pub proof fn lemma_session_of(ls: Seq<Seq<char>>, t: Seq<char>)
    ensures
        session_of(Seq::empty()) == Ok::<Seq<LineView>, LoadErrorView>(Seq::empty()),
        session_of(ls) is Err ==> session_of(ls.push(t)) == session_of(ls),
        session_of(ls) is Ok && trim(t).len() == 0 ==> session_of(ls.push(t)) == session_of(ls),
        session_of(ls) is Ok && trim(t).len() > 0 && line_in(t) is Some ==> session_of(ls.push(t))
            == Ok::<Seq<LineView>, LoadErrorView>(session_of(ls)->Ok_0.push(line_in(t)->0)),
        session_of(ls) is Ok && trim(t).len() > 0 && line_in(t) is None ==> session_of(ls.push(t))
            is Err,
{
    assert(ls.push(t).drop_last() =~= ls);
    assert(session_of(Seq::<Seq<char>>::empty()) == Ok::<Seq<LineView>, LoadErrorView>(seq![]));
}

/// How a line of the file is read: an object with one `ts` that is a number, one `role` and one
/// `text` that are texts, wherever they stand and whatever other fields there are. Without one of
/// them it is no line.
pub proof fn lemma_line_read(
    t: Seq<char>,
    fields: Seq<(Seq<char>, DocView)>,
    a: int,
    b: int,
    c: int,
    ts: u64,
    role: Seq<char>,
    said: Seq<char>,
)
    requires
        doc_of_text(t) == Some(DocView::Object(fields)),
    ensures
        only_at(fields, "ts"@, a) && fields[a].1 == DocView::Int(ts as int) && only_at(
            fields,
            "role"@,
            b,
        ) && fields[b].1 == DocView::Text(role) && only_at(fields, "text"@, c) && fields[c].1
            == DocView::Text(said) ==> line_in(t) == Some(LineView { ts, role, text: said }),
        (forall|k: int| 0 <= k < fields.len() ==> (#[trigger] fields[k]).0 != "role"@) ==> line_in(t)
            is None,
        (forall|k: int| 0 <= k < fields.len() ==> (#[trigger] fields[k]).0 != "text"@) ==> line_in(t)
            is None,
        (forall|k: int| 0 <= k < fields.len() ==> (#[trigger] fields[k]).0 != "ts"@) ==> line_in(t)
            is None,
{
    lemma_member(fields, "ts"@, a, a, Seq::empty(), 0, 3);
    lemma_member(fields, "role"@, b, b, Seq::empty(), 1, 3);
    lemma_member(fields, "text"@, c, c, Seq::empty(), 2, 3);
}

/// Why a session cannot be read: what is wrong with the JSON of the first line that is none, or that
/// line itself.
pub proof fn lemma_load_error(ls: Seq<Seq<char>>, t: Seq<char>, e: Seq<char>)
    requires
        session_of(ls) is Ok,
        trim(t).len() > 0,
        line_in(t) is None,
    ensures
        json_error(t) == Some(e) ==> session_of(ls.push(t)) == Err::<Seq<LineView>, LoadErrorView>(
            LoadErrorView::Json(e),
        ),
        json_error(t) is None ==> session_of(ls.push(t)) == Err::<Seq<LineView>, LoadErrorView>(
            LoadErrorView::Record(t),
        ),
        load_error_text(LoadErrorView::Json(e)) == e,
        load_error_text(LoadErrorView::Record(t)) == "not a line of a session: "@ + t,
{
    assert(ls.push(t).drop_last() =~= ls);
}

} // verus!
