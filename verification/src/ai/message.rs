//! Conversation messages.

use vstd::prelude::*;

use crate::json::{Json, JsonView};
use crate::text::chars::owned;

verus! {

/// A piece of a message.
#[derive(Debug)]
pub enum ContentBlock {
    Text { text: String },
    ToolCall { id: String, name: String, arguments: Json, thought_signature: Option<String> },
}

/// What a user message holds.
#[derive(Debug)]
pub enum UserContent {
    Text(String),
    Blocks(Vec<ContentBlock>),
}

#[derive(Debug)]
pub struct UserMessage {
    pub content: UserContent,
    pub timestamp: u64,
}

/// Why a model stopped.
#[derive(Debug, Clone, Copy, PartialEq, Eq, Structural)]
pub enum StopReason {
    Stop,
    Error,
    Aborted,
}

#[derive(Debug)]
pub struct AssistantMessage {
    pub content: Vec<ContentBlock>,
    pub stop_reason: StopReason,
    pub error_message: Option<String>,
}

#[derive(Debug)]
pub struct ToolResultMessage {
    pub tool_call_id: String,
    pub tool_name: String,
    pub content: Vec<ContentBlock>,
    pub details: Option<Json>,
    pub is_error: bool,
    pub terminate: bool,
    pub timestamp: u64,
}

/// One message of a conversation.
#[derive(Debug)]
pub enum Message {
    User(UserMessage),
    Assistant(AssistantMessage),
    ToolResult(ToolResultMessage),
}

/// What a content block is.
pub enum BlockView {
    Text(Seq<char>),
    ToolCall {
        id: Seq<char>,
        name: Seq<char>,
        arguments: JsonView,
        thought_signature: Option<Seq<char>>,
    },
}

/// What a user message holds.
pub enum UserContentView {
    Text(Seq<char>),
    Blocks(Seq<BlockView>),
}

pub struct AssistantView {
    pub content: Seq<BlockView>,
    pub stop_reason: StopReason,
    pub error_message: Option<Seq<char>>,
}

pub struct ToolResultView {
    pub tool_call_id: Seq<char>,
    pub tool_name: Seq<char>,
    pub content: Seq<BlockView>,
    pub details: Option<JsonView>,
    pub is_error: bool,
    pub terminate: bool,
    pub timestamp: u64,
}

/// What a message is.
pub enum MessageView {
    User { content: UserContentView, timestamp: u64 },
    Assistant(AssistantView),
    ToolResult(ToolResultView),
}

impl View for ContentBlock {
    type V = BlockView;

    open spec fn view(&self) -> BlockView {
        match self {
            ContentBlock::Text { text } => BlockView::Text(text@),
            ContentBlock::ToolCall { id, name, arguments, thought_signature } => BlockView::ToolCall {
                id: id@,
                name: name@,
                arguments: arguments@,
                thought_signature: thought_signature.deep_view(),
            },
        }
    }
}

/// The blocks of a message.
pub open spec fn blocks(s: Seq<ContentBlock>) -> Seq<BlockView> {
    Seq::new(s.len(), |i: int| s[i]@)
}

impl View for UserContent {
    type V = UserContentView;

    open spec fn view(&self) -> UserContentView {
        match self {
            UserContent::Text(t) => UserContentView::Text(t@),
            UserContent::Blocks(b) => UserContentView::Blocks(blocks(b@)),
        }
    }
}

impl View for AssistantMessage {
    type V = AssistantView;

    open spec fn view(&self) -> AssistantView {
        AssistantView {
            content: blocks(self.content@),
            stop_reason: self.stop_reason,
            error_message: self.error_message.deep_view(),
        }
    }
}

/// What an optional JSON value is.
pub open spec fn json_option(d: Option<Json>) -> Option<JsonView> {
    match d {
        Some(j) => Some(j@),
        None => None,
    }
}

impl View for ToolResultMessage {
    type V = ToolResultView;

    open spec fn view(&self) -> ToolResultView {
        ToolResultView {
            tool_call_id: self.tool_call_id@,
            tool_name: self.tool_name@,
            content: blocks(self.content@),
            details: json_option(self.details),
            is_error: self.is_error,
            terminate: self.terminate,
            timestamp: self.timestamp,
        }
    }
}

impl View for Message {
    type V = MessageView;

    open spec fn view(&self) -> MessageView {
        match self {
            Message::User(u) => MessageView::User { content: u.content@, timestamp: u.timestamp },
            Message::Assistant(a) => MessageView::Assistant(a@),
            Message::ToolResult(t) => MessageView::ToolResult(t@),
        }
    }
}

/// The messages of a conversation.
pub open spec fn messages(s: Seq<Message>) -> Seq<MessageView> {
    Seq::new(s.len(), |i: int| s[i]@)
}

/// The text of a block, where it is one.
pub open spec fn block_text(b: BlockView) -> Option<Seq<char>> {
    match b {
        BlockView::Text(t) => Some(t),
        _ => None,
    }
}

/// The text blocks one after the other.
pub open spec fn blocks_text(s: Seq<BlockView>) -> Seq<char>
    decreases s.len(),
{
    if s.len() == 0 {
        seq![]
    } else {
        match block_text(s.last()) {
            Some(t) => blocks_text(s.drop_last()) + t,
            None => blocks_text(s.drop_last()),
        }
    }
}

impl Clone for ContentBlock {
    fn clone(&self) -> (r: ContentBlock)
        ensures
            r@ == self@,
    {
        match self {
            ContentBlock::Text { text } => ContentBlock::Text { text: owned(text) },
            ContentBlock::ToolCall { id, name, arguments, thought_signature } => ContentBlock::ToolCall {
                id: owned(id),
                name: owned(name),
                arguments: arguments.clone(),
                thought_signature: thought_signature.clone(),
            },
        }
    }
}

/// Copies the blocks of a message.
fn copy_blocks(b: &Vec<ContentBlock>) -> (r: Vec<ContentBlock>)
    ensures
        blocks(r@) == blocks(b@),
{
    let mut out: Vec<ContentBlock> = Vec::new();
    let mut i: usize = 0;
    while i < b.len()
        invariant
            i <= b@.len(),
            blocks(out@) == blocks(b@).take(i as int),
        decreases b@.len() - i,
    {
        let c: ContentBlock = b[i].clone();
        proof {
            assert(blocks(out@.push(c)) == blocks(out@).push(c@));
            assert(blocks(b@).take(i + 1) == blocks(b@).take(i as int).push(c@));
        }
        out.push(c);
        i = i + 1;
    }
    assert(blocks(b@).take(i as int) == blocks(b@));
    out
}

impl Clone for UserMessage {
    fn clone(&self) -> (r: UserMessage)
        ensures
            r.content@ == self.content@,
            r.timestamp == self.timestamp,
    {
        let content: UserContent = match &self.content {
            UserContent::Text(t) => UserContent::Text(owned(t)),
            UserContent::Blocks(b) => UserContent::Blocks(copy_blocks(b)),
        };
        UserMessage { content, timestamp: self.timestamp }
    }
}

impl Clone for AssistantMessage {
    fn clone(&self) -> (r: AssistantMessage)
        ensures
            r@ == self@,
    {
        AssistantMessage {
            content: copy_blocks(&self.content),
            stop_reason: self.stop_reason,
            error_message: self.error_message.clone(),
        }
    }
}

impl Clone for ToolResultMessage {
    fn clone(&self) -> (r: ToolResultMessage)
        ensures
            r@ == self@,
    {
        let details: Option<Json> = match &self.details {
            Some(j) => Some(j.clone()),
            None => None,
        };
        ToolResultMessage {
            tool_call_id: owned(&self.tool_call_id),
            tool_name: owned(&self.tool_name),
            content: copy_blocks(&self.content),
            details,
            is_error: self.is_error,
            terminate: self.terminate,
            timestamp: self.timestamp,
        }
    }
}

impl Clone for Message {
    fn clone(&self) -> (r: Message)
        ensures
            r@ == self@,
    {
        match self {
            Message::User(u) => Message::User(u.clone()),
            Message::Assistant(a) => Message::Assistant(a.clone()),
            Message::ToolResult(t) => Message::ToolResult(t.clone()),
        }
    }
}

impl Default for AssistantMessage {
    fn default() -> (r: AssistantMessage)
        ensures
            r@ == (AssistantView {
                content: seq![],
                stop_reason: StopReason::Stop,
                error_message: None,
            }),
    {
        let r: AssistantMessage = AssistantMessage {
            content: Vec::new(),
            stop_reason: StopReason::Stop,
            error_message: None,
        };
        assert(blocks(r.content@) == Seq::<BlockView>::empty());
        r
    }
}

impl ContentBlock {
    /// A block of text.
    pub fn text(t: &str) -> (r: ContentBlock)
        ensures
            r@ == BlockView::Text(t@),
    {
        ContentBlock::Text { text: owned(t) }
    }

    /// The text of this block, where it is one.
    pub fn as_text(&self) -> (r: Option<&str>)
        ensures
            match r {
                Some(t) => block_text(self@) == Some(t@),
                None => block_text(self@) is None,
            },
    {
        match self {
            ContentBlock::Text { text } => Some(text.as_str()),
            _ => None,
        }
    }
}

impl AssistantMessage {
    /// What this message says.
    pub fn text(&self) -> (r: String)
        ensures
            r@ == blocks_text(self@.content),
    {
        let mut out: String = String::new();
        let mut i: usize = 0;
        while i < self.content.len()
            invariant
                i <= self.content@.len(),
                out@ == blocks_text(blocks(self.content@).take(i as int)),
            decreases self.content@.len() - i,
        {
            proof {
                let s = blocks(self.content@);
                assert(s.take(i + 1).drop_last() == s.take(i as int));
                assert(s.take(i + 1).last() == self.content@[i as int]@);
            }
            if let Some(t) = self.content[i].as_text() {
                out.append(t);
            }
            i = i + 1;
        }
        assert(blocks(self.content@).take(i as int) == blocks(self.content@));
        out
    }
}

impl Message {
    /// A user message that holds a text, without a time.
    pub fn user(t: &str) -> (r: Message)
        ensures
            r@ == (MessageView::User { content: UserContentView::Text(t@), timestamp: 0 }),
    {
        Message::User(UserMessage { content: UserContent::Text(owned(t)), timestamp: 0 })
    }
}

/// What blocks say: nothing where there are none, what the first ones say and behind it what the
/// others do; a text block says its text, and a call of a tool says nothing.
pub proof fn lemma_blocks_text(a: Seq<BlockView>, b: Seq<BlockView>, t: Seq<char>, call: BlockView)
    requires
        call is ToolCall,
    ensures
        blocks_text(Seq::empty()) == Seq::<char>::empty(),
        blocks_text(seq![BlockView::Text(t)]) == t,
        blocks_text(seq![call]) == Seq::<char>::empty(),
        blocks_text(a + b) == blocks_text(a) + blocks_text(b),
    decreases b.len(),
{
    let none = Seq::<BlockView>::empty();
    assert(blocks_text(none) =~= Seq::<char>::empty());
    assert(seq![BlockView::Text(t)].drop_last() =~= none);
    assert(seq![call].drop_last() =~= none);
    assert(blocks_text(seq![BlockView::Text(t)]) =~= t);
    if b.len() == 0 {
        assert(a + b =~= a);
        assert(blocks_text(a) + blocks_text(b) =~= blocks_text(a));
    } else {
        assert((a + b).drop_last() =~= a + b.drop_last());
        lemma_blocks_text(a, b.drop_last(), t, call);
        assert(blocks_text(a + b) =~= blocks_text(a) + blocks_text(b));
    }
}

} // verus!
