//! Control pins: user messages in a `<system-reminder> kind=…` envelope.
//!
//! Whatever rewrites a conversation before it is sent may drop pins that must stay visible, may
//! put a message between a tool call and its result, or may lose a result. The functions here
//! repair each of these.

use vstd::prelude::*;

use crate::ai::message::{
    block_text, messages, BlockView, ContentBlock, Message, MessageView, ToolResultMessage,
    ToolResultView, UserContent, UserContentView,
};
use crate::json::{field_trees, Json, JsonView};
use crate::text::chars::{is_space, owned, same, space, trim, trim_str, lemma_trim_fixed};
use crate::text::pairs::text_pairs;
use crate::text::search::{
    contains, find, find_str, find_where, holds, lemma_find, lemma_find_is, lemma_find_where_is,
    occurs_at, skip_str, take_str,
};

verus! {

/// The kinds of pins that are put back where a rewrite dropped them.
pub const PROTECTED_KINDS: [&'static str; 5] = [
    "stop_gate",
    "verify",
    "edit_fail",
    "repeat",
    "no_progress",
];

/// The kinds of pins that are put back, in the order in which that happens.
pub open spec fn protected_kinds() -> Seq<Seq<char>> {
    seq!["stop_gate"@, "verify"@, "edit_fail"@, "repeat"@, "no_progress"@]
}

/// A body in the reminder envelope.
pub open spec fn wrapped(kind: Seq<char>, body: Seq<char>) -> Seq<char> {
    "<system-reminder> kind="@ + kind + "\n"@ + body + "\n</system-reminder>"@
}

/// What ends the name of a kind.
pub open spec fn ends_kind() -> spec_fn(char) -> bool {
    |c: char| is_space(c) || c == '>'
}

/// The kind of a text that holds a reminder.
pub open spec fn kind_of(t: Seq<char>) -> Option<Seq<char>> {
    if !contains(t, "<system-reminder>"@) {
        None
    } else {
        match find(t, "kind="@) {
            None => None,
            Some(k) => {
                let rest = t.skip(k as int + "kind="@.len());
                let end = match find_where(rest, ends_kind()) {
                    Some(e) => e as int,
                    None => rest.len() as int,
                };
                let kind = trim(rest.take(end));
                if kind.len() == 0 {
                    None
                } else {
                    Some(kind)
                }
            },
        }
    }
}

/// The text of a user message: its first block, where it has blocks.
pub open spec fn user_text_of(m: MessageView) -> Option<Seq<char>> {
    match m {
        MessageView::User { content, .. } => match content {
            UserContentView::Text(t) => Some(t),
            UserContentView::Blocks(b) => if b.len() > 0 {
                block_text(b[0])
            } else {
                None
            },
        },
        _ => None,
    }
}

/// The kind of a message that is a control pin.
pub open spec fn pin_kind(m: MessageView) -> Option<Seq<char>> {
    match user_text_of(m) {
        Some(t) => kind_of(t),
        None => None,
    }
}

/// Wraps a body in the reminder envelope.
pub fn wrap_reminder(kind: &str, body: &str) -> (r: String)
    ensures
        r@ == wrapped(kind@, body@),
{
    let mut out: String = owned("<system-reminder> kind=");
    out.append(kind);
    out.append("\n");
    out.append(body);
    out.append("\n</system-reminder>");
    out
}

/// Where the name of a kind ends.
fn kind_end(s: &str) -> (k: usize)
    ensures
        k <= s@.len(),
        find_where(s@, ends_kind()) == (if k < s@.len() {
            Some(k as nat)
        } else {
            None
        }),
{
    let n: usize = s.unicode_len();
    let mut i: usize = 0;
    while i < n
        invariant
            i <= n,
            n == s@.len(),
            forall|j: int| 0 <= j < i ==> !ends_kind()(#[trigger] s@[j]),
        decreases n - i,
    {
        let c: char = s.get_char(i);
        if space(c) || c == '>' {
            proof {
                lemma_find_where_is(s@, ends_kind(), i as int);
            }
            return i;
        }
        i = i + 1;
    }
    proof {
        lemma_find_where_is(s@, ends_kind(), i as int);
    }
    i
}

/// The kind of a text that holds a reminder.
pub fn reminder_kind(text: &str) -> (r: Option<&str>)
    ensures
        match r {
            Some(k) => kind_of(text@) == Some(k@),
            None => kind_of(text@) is None,
        },
{
    if !holds(text, "<system-reminder>") {
        return None;
    }
    match find_str(text, "kind=") {
        None => None,
        Some(k) => {
            proof {
                reveal_strlit("kind=");
            }
            let rest: &str = skip_str(text, k + 5);
            let end: usize = kind_end(rest);
            let kind: &str = trim_str(take_str(rest, end));
            if kind.unicode_len() == 0 {
                None
            } else {
                Some(kind)
            }
        },
    }
}

fn user_text(m: &Message) -> (r: Option<&str>)
    ensures
        match r {
            Some(t) => user_text_of(m@) == Some(t@),
            None => user_text_of(m@) is None,
        },
{
    match m {
        Message::User(u) => match &u.content {
            UserContent::Text(t) => Some(t.as_str()),
            UserContent::Blocks(b) => if b.len() > 0 {
                b[0].as_text()
            } else {
                None
            },
        },
        _ => None,
    }
}

/// The kind of a message that is a control pin.
pub fn message_reminder_kind(m: &Message) -> (r: Option<&str>)
    ensures
        match r {
            Some(k) => pin_kind(m@) == Some(k@),
            None => pin_kind(m@) is None,
        },
{
    match user_text(m) {
        Some(t) => reminder_kind(t),
        None => None,
    }
}

/// Whether a message is a control pin of the given kind.
pub fn is_reminder_kind(m: &Message, kind: &str) -> (r: bool)
    ensures
        r == (pin_kind(m@) == Some(kind@)),
{
    match message_reminder_kind(m) {
        Some(k) => same(k, kind),
        None => false,
    }
}

/// The messages that are no pin of the given kind.
pub open spec fn without_kind(s: Seq<MessageView>, kind: Seq<char>) -> Seq<MessageView>
    decreases s.len(),
{
    if s.len() == 0 {
        seq![]
    } else if pin_kind(s.last()) == Some(kind) {
        without_kind(s.drop_last(), kind)
    } else {
        without_kind(s.drop_last(), kind).push(s.last())
    }
}

/// Drops the pins of one kind, and nothing else.
pub fn strip_reminder_kind(messages: Vec<Message>, kind: &str) -> (r: Vec<Message>)
    ensures
        self::messages(r@) == without_kind(self::messages(messages@), kind@),
{
    let ghost all = messages@;
    let mut out: Vec<Message> = Vec::new();
    for m in it: messages
        invariant
            it.seq() == all,
            self::messages(out@) == without_kind(self::messages(all).take(it.index()), kind@),
    {
        proof {
            let s = self::messages(all);
            assert(s.take(it.index() + 1).drop_last() == s.take(it.index()));
            assert(self::messages(out@.push(m)) == self::messages(out@).push(m@));
        }
        if !is_reminder_kind(&m, kind) {
            out.push(m);
        }
    }
    assert(self::messages(all).take(all.len() as int) == self::messages(all));
    out
}

/// How many pins of one kind there are.
pub open spec fn pins(s: Seq<MessageView>, kind: Seq<char>) -> nat
    decreases s.len(),
{
    if s.len() == 0 {
        0
    } else if pin_kind(s.last()) == Some(kind) {
        pins(s.drop_last(), kind) + 1
    } else {
        pins(s.drop_last(), kind)
    }
}

/// The last pin of one kind.
pub open spec fn last_pin(s: Seq<MessageView>, kind: Seq<char>) -> Option<MessageView>
    decreases s.len(),
{
    if s.len() == 0 {
        None
    } else if pin_kind(s.last()) == Some(kind) {
        Some(s.last())
    } else {
        last_pin(s.drop_last(), kind)
    }
}

/// `after` with the last pin of one kind put back before its last message, where `before` had
/// one and `after` has none.
pub open spec fn restored(
    before: Seq<MessageView>,
    after: Seq<MessageView>,
    kind: Seq<char>,
) -> Seq<MessageView> {
    match last_pin(before, kind) {
        Some(m) => if pins(after, kind) > 0 {
            after
        } else if after.len() == 0 {
            seq![m]
        } else {
            after.insert(after.len() - 1, m)
        },
        None => after,
    }
}

/// `after` with the lost pins of each kind put back, one kind after the other.
pub open spec fn preserved(
    before: Seq<MessageView>,
    after: Seq<MessageView>,
    kinds: Seq<Seq<char>>,
) -> Seq<MessageView>
    decreases kinds.len(),
{
    if kinds.len() == 0 {
        after
    } else {
        restored(before, preserved(before, after, kinds.drop_last()), kinds.last())
    }
}

/// Whether there is a pin of the given kind.
fn has_pin(s: &Vec<Message>, kind: &str) -> (r: bool)
    ensures
        r == (pins(messages(s@), kind@) > 0),
{
    let mut found: bool = false;
    let mut i: usize = 0;
    while i < s.len()
        invariant
            i <= s@.len(),
            found == (pins(messages(s@).take(i as int), kind@) > 0),
        decreases s@.len() - i,
    {
        proof {
            assert(messages(s@).take(i + 1).drop_last() == messages(s@).take(i as int));
        }
        if is_reminder_kind(&s[i], kind) {
            found = true;
        }
        i = i + 1;
    }
    assert(messages(s@).take(i as int) == messages(s@));
    found
}

/// A copy of the last pin of the given kind.
fn find_last_pin(s: &[Message], kind: &str) -> (r: Option<Message>)
    ensures
        match r {
            Some(m) => last_pin(messages(s@), kind@) == Some(m@),
            None => last_pin(messages(s@), kind@) is None,
        },
{
    let mut i: usize = s.len();
    assert(messages(s@).take(i as int) == messages(s@));
    while i > 0
        invariant
            i <= s@.len(),
            last_pin(messages(s@), kind@) == last_pin(messages(s@).take(i as int), kind@),
        decreases i,
    {
        proof {
            assert(messages(s@).take(i as int).drop_last() == messages(s@).take(i - 1));
        }
        i = i - 1;
        if is_reminder_kind(&s[i], kind) {
            return Some(s[i].clone());
        }
    }
    None
}

/// After a rewrite of a conversation, puts back the pins of protected kinds that it removed:
/// of each such kind the most recent one, before the last message.
pub fn preserve_control_pins(before: &[Message], after: Vec<Message>) -> (r: Vec<Message>)
    ensures
        messages(r@) == preserved(messages(before@), messages(after@), protected_kinds()),
{
    let mut out: Vec<Message> = after;
    let mut i: usize = 0;
    while i < 5
        invariant
            i <= 5,
            messages(out@) == preserved(
                messages(before@),
                messages(after@),
                protected_kinds().take(i as int),
            ),
        decreases 5 - i,
    {
        let kind: &str = PROTECTED_KINDS[i];
        proof {
            assert(kind@ == protected_kinds()[i as int]);
            assert(protected_kinds().take(i + 1).drop_last() == protected_kinds().take(i as int));
        }
        if !has_pin(&out, kind) {
            if let Some(m) = find_last_pin(before, kind) {
                let n: usize = out.len();
                let at: usize = if n > 0 {
                    n - 1
                } else {
                    0
                };
                proof {
                    if n > 0 {
                        assert(messages(out@.insert(at as int, m)) == messages(out@).insert(
                            at as int,
                            m@,
                        ));
                    } else {
                        assert(messages(out@.insert(at as int, m)) == seq![m@]);
                    }
                }
                out.insert(at, m);
            }
        }
        i = i + 1;
    }
    assert(protected_kinds().take(5) == protected_kinds());
    out
}

proof fn lemma_pins_add(a: Seq<MessageView>, b: Seq<MessageView>, kind: Seq<char>)
    ensures
        pins(a + b, kind) == pins(a, kind) + pins(b, kind),
    decreases b.len(),
{
    if b.len() == 0 {
        assert(a + b == a);
    } else {
        assert((a + b).drop_last() == a + b.drop_last());
        lemma_pins_add(a, b.drop_last(), kind);
    }
}

proof fn lemma_last_pin(s: Seq<MessageView>, kind: Seq<char>)
    ensures
        match last_pin(s, kind) {
            Some(m) => pin_kind(m) == Some(kind) && pins(s, kind) > 0,
            None => pins(s, kind) == 0,
        },
    decreases s.len(),
{
    if s.len() > 0 {
        lemma_last_pin(s.drop_last(), kind);
    }
}

proof fn lemma_restored(
    before: Seq<MessageView>,
    after: Seq<MessageView>,
    kind: Seq<char>,
    other: Seq<char>,
)
    ensures
        pins(restored(before, after, kind), other) == if other == kind && pins(after, kind) == 0
            && pins(before, kind) > 0 {
            1
        } else {
            pins(after, other)
        },
{
    lemma_last_pin(before, kind);
    if let Some(m) = last_pin(before, kind) {
        if pins(after, kind) == 0 {
            let n = if after.len() > 0 {
                after.len() - 1
            } else {
                0
            };
            let r = restored(before, after, kind);
            assert(r == after.take(n) + seq![m] + after.skip(n));
            assert(after == after.take(n) + after.skip(n));
            lemma_pins_add(after.take(n), after.skip(n), other);
            lemma_pins_add(after.take(n) + seq![m], after.skip(n), other);
            lemma_pins_add(after.take(n), seq![m], other);
            assert(seq![m].drop_last() == Seq::<MessageView>::empty());
            reveal_with_fuel(pins, 2);
        }
    }
}

proof fn lemma_preserved_pins(
    before: Seq<MessageView>,
    after: Seq<MessageView>,
    kinds: Seq<Seq<char>>,
    kind: Seq<char>,
)
    ensures
        pins(preserved(before, after, kinds), kind) == if kinds.contains(kind) && pins(after, kind)
            == 0 && pins(before, kind) > 0 {
            1
        } else {
            pins(after, kind)
        },
    decreases kinds.len(),
{
    if kinds.len() > 0 {
        let p = preserved(before, after, kinds.drop_last());
        lemma_preserved_pins(before, after, kinds.drop_last(), kind);
        lemma_restored(before, p, kinds.last(), kind);
        if kinds.contains(kind) && kinds.last() != kind {
            let i = choose|i: int| 0 <= i < kinds.len() && kinds[i] == kind;
            assert(kinds.drop_last()[i] == kind);
        }
        if kinds.drop_last().contains(kind) {
            let i = choose|i: int| 0 <= i < kinds.len() - 1 && kinds.drop_last()[i] == kind;
            assert(kinds[i] == kind);
        }
        if kinds.last() == kind {
            assert(kinds[kinds.len() - 1] == kind);
        }
    }
}

/// A protected kind that a rewrite removed altogether is there again, exactly once; every kind
/// that is still there, and every kind that is not protected, keeps its number of pins.
pub proof fn lemma_preserve_restores(
    before: Seq<MessageView>,
    after: Seq<MessageView>,
    kind: Seq<char>,
)
    ensures
        pins(preserved(before, after, protected_kinds()), kind) == if protected_kinds().contains(
            kind,
        ) && pins(after, kind) == 0 && pins(before, kind) > 0 {
            1
        } else {
            pins(after, kind)
        },
{
    lemma_preserved_pins(before, after, protected_kinds(), kind);
}

/// The pin of an old plan is not put back.
pub proof fn lemma_plan_is_not_restored(before: Seq<MessageView>, after: Seq<MessageView>)
    ensures
        pins(preserved(before, after, protected_kinds()), "plan"@) == pins(after, "plan"@),
{
    reveal_strlit("plan");
    reveal_strlit("stop_gate");
    reveal_strlit("verify");
    reveal_strlit("edit_fail");
    reveal_strlit("repeat");
    reveal_strlit("no_progress");
    assert(!protected_kinds().contains("plan"@)) by {
        assert("stop_gate"@.len() == 9);
        assert("verify"@.len() == 6);
        assert("edit_fail"@.len() == 9);
        assert("repeat"@.len() == 6);
        assert("no_progress"@.len() == 11);
        assert("plan"@.len() == 4);
    }
    lemma_preserved_pins(before, after, protected_kinds(), "plan"@);
}

/// Putting pins back a second time changes nothing.
pub proof fn lemma_preserve_idempotent(before: Seq<MessageView>, after: Seq<MessageView>)
    ensures
        preserved(before, preserved(before, after, protected_kinds()), protected_kinds())
            == preserved(before, after, protected_kinds()),
{
    let p = preserved(before, after, protected_kinds());
    assert forall|kind: Seq<char>| #[trigger]
        protected_kinds().contains(kind) && pins(before, kind) > 0 implies pins(p, kind) > 0 by {
        lemma_preserved_pins(before, after, protected_kinds(), kind);
    }
    lemma_preserved_same(before, p, protected_kinds());
}

proof fn lemma_preserved_same(
    before: Seq<MessageView>,
    after: Seq<MessageView>,
    kinds: Seq<Seq<char>>,
)
    requires
        forall|kind: Seq<char>| #[trigger]
            kinds.contains(kind) && pins(before, kind) > 0 ==> pins(after, kind) > 0,
    ensures
        preserved(before, after, kinds) == after,
    decreases kinds.len(),
{
    if kinds.len() > 0 {
        let k = kinds.drop_last();
        assert forall|kind: Seq<char>| #[trigger]
            k.contains(kind) && pins(before, kind) > 0 implies pins(after, kind) > 0 by {
            let i = choose|i: int| 0 <= i < k.len() && k[i] == kind;
            assert(kinds[i] == kind);
            assert(kinds.contains(kind));
        }
        lemma_preserved_same(before, after, k);
        lemma_last_pin(before, kinds.last());
        assert(kinds[kinds.len() - 1] == kinds.last());
        assert(kinds.contains(kinds.last()));
    }
}

/// A wrapped body tells its kind, where the kind is a name: not empty, and without white
/// space and `>`.
pub proof fn lemma_wrapped_kind(kind: Seq<char>, body: Seq<char>)
    requires
        kind.len() > 0,
        forall|i: int| 0 <= i < kind.len() ==> !ends_kind()(#[trigger] kind[i]),
    ensures
        kind_of(wrapped(kind, body)) == Some(kind),
{
    reveal_strlit("<system-reminder> kind=");
    reveal_strlit("<system-reminder>");
    reveal_strlit("kind=");
    reveal_strlit("\n");
    reveal_strlit("\n</system-reminder>");
    let t = wrapped(kind, body);
    assert(t.subrange(0, 17) == "<system-reminder>"@);
    assert(occurs_at(t, "<system-reminder>"@, 0));
    assert(t.subrange(18, 23) == "kind="@);
    assert(occurs_at(t, "kind="@, 18));
    assert forall|j: int| 0 <= j < 18 implies !occurs_at(t, "kind="@, j) by {
        assert(t[j] == "<system-reminder> kind="@[j]);
        if t.subrange(j, j + 5) == "kind="@ {
            assert(t.subrange(j, j + 5)[0] == 'k');
        }
    }
    lemma_find_is(t, "kind="@, 18);
    let rest = t.skip(23);
    assert(rest == kind + "\n"@ + body + "\n</system-reminder>"@);
    assert forall|j: int| 0 <= j < kind.len() implies !ends_kind()(#[trigger] rest[j]) by {
        assert(rest[j] == kind[j]);
    }
    assert(rest[kind.len() as int] == '\n');
    assert(ends_kind()('\n'));
    lemma_find_where_is(rest, ends_kind(), kind.len() as int);
    assert(rest.take(kind.len() as int) == kind);
    assert(!ends_kind()(kind[0]));
    assert(!ends_kind()(kind[kind.len() - 1]));
    lemma_trim_fixed(kind);
}

/// The calls that a message makes: of each its id and the name of the tool.
pub open spec fn block_calls(s: Seq<BlockView>) -> Seq<(Seq<char>, Seq<char>)>
    decreases s.len(),
{
    if s.len() == 0 {
        seq![]
    } else {
        match s.last() {
            BlockView::ToolCall { id, name, .. } => block_calls(s.drop_last()).push((id, name)),
            _ => block_calls(s.drop_last()),
        }
    }
}

/// The calls that a message makes.
pub open spec fn calls(m: MessageView) -> Seq<(Seq<char>, Seq<char>)> {
    match m {
        MessageView::Assistant(a) => block_calls(a.content),
        _ => seq![],
    }
}

/// How many messages there are before the next assistant message.
pub open spec fn group_len(s: Seq<MessageView>) -> nat
    decreases s.len(),
{
    if s.len() == 0 || s[0] is Assistant {
        0
    } else {
        1 + group_len(s.skip(1))
    }
}

/// The tool results among the messages.
pub open spec fn results(s: Seq<MessageView>) -> Seq<MessageView>
    decreases s.len(),
{
    if s.len() == 0 {
        seq![]
    } else if s[0] is ToolResult {
        seq![s[0]] + results(s.skip(1))
    } else {
        results(s.skip(1))
    }
}

/// The messages that are no tool results.
pub open spec fn others(s: Seq<MessageView>) -> Seq<MessageView>
    decreases s.len(),
{
    if s.len() == 0 {
        seq![]
    } else if s[0] is ToolResult {
        others(s.skip(1))
    } else {
        seq![s[0]] + others(s.skip(1))
    }
}

/// A group ends before the first assistant message.
pub proof fn lemma_group_len(s: Seq<MessageView>)
    ensures
        group_len(s) <= s.len(),
        forall|i: int| 0 <= i < group_len(s) ==> !(#[trigger] s[i] is Assistant),
        group_len(s) < s.len() ==> s[group_len(s) as int] is Assistant,
    decreases s.len(),
{
    if s.len() > 0 && !(s[0] is Assistant) {
        lemma_group_len(s.skip(1));
        assert forall|i: int| 0 <= i < group_len(s) implies !(#[trigger] s[i] is Assistant) by {
            if i > 0 {
                assert(s[i] == s.skip(1)[i - 1]);
            }
        }
        if group_len(s) < s.len() {
            assert(s[group_len(s) as int] == s.skip(1)[group_len(s.skip(1)) as int]);
        }
    }
}

/// The conversation in which, behind every assistant message that calls tools, the results that
/// stand before the next assistant message come first, and then what stood among them, each in
/// its order.
pub open spec fn adjacent(s: Seq<MessageView>) -> Seq<MessageView>
    decreases s.len(),
{
    if s.len() == 0 {
        seq![]
    } else if calls(s[0]).len() == 0 {
        seq![s[0]] + adjacent(s.skip(1))
    } else {
        let rest = s.skip(1);
        let n = group_len(rest) as int;
        proof {
            lemma_group_len(rest);
        }
        let group = rest.take(n);
        seq![s[0]] + results(group) + others(group) + adjacent(rest.skip(n))
    }
}

/// Whether a message calls tools.
fn calls_tools(m: &Message) -> (r: bool)
    ensures
        r == (calls(m@).len() > 0),
{
    match m {
        Message::Assistant(a) => {
            let ghost all = a@.content;
            let mut i: usize = 0;
            while i < a.content.len()
                invariant
                    i <= a.content@.len(),
                    all == a@.content,
                    m@ == MessageView::Assistant(a@),
                    block_calls(all.take(i as int)).len() == 0,
                decreases a.content@.len() - i,
            {
                proof {
                    assert(all.take(i + 1).drop_last() == all.take(i as int));
                    assert(all.take(i + 1).last() == a.content@[i as int]@);
                }
                if let ContentBlock::ToolCall { .. } = &a.content[i] {
                    proof {
                        lemma_block_calls_grow(all, i + 1);
                    }
                    return true;
                }
                i = i + 1;
            }
            assert(all.take(i as int) == all);
            false
        },
        _ => false,
    }
}

proof fn lemma_block_calls_grow(s: Seq<BlockView>, k: int)
    requires
        0 <= k <= s.len(),
    ensures
        block_calls(s.take(k)).len() <= block_calls(s).len(),
    decreases s.len() - k,
{
    if k < s.len() {
        lemma_block_calls_grow(s.drop_last(), k);
        assert(s.drop_last().take(k) == s.take(k));
    } else {
        assert(s.take(k) == s);
    }
}

/// What is still to come, where results and other messages of an open group were read.
spec fn adjacent_from(
    open: bool,
    rs: Seq<MessageView>,
    os: Seq<MessageView>,
    s: Seq<MessageView>,
) -> Seq<MessageView> {
    if open {
        let n = group_len(s) as int;
        rs + results(s.take(n)) + os + others(s.take(n)) + adjacent(s.skip(n))
    } else {
        rs + os + adjacent(s)
    }
}

proof fn lemma_messages_push(s: Seq<Message>, m: Message)
    ensures
        messages(s.push(m)) == messages(s).push(m@),
{
    assert(messages(s.push(m)) =~= messages(s).push(m@));
}

proof fn lemma_messages_add(a: Seq<Message>, b: Seq<Message>)
    ensures
        messages(a + b) == messages(a) + messages(b),
{
    assert(messages(a + b) =~= messages(a) + messages(b));
}

/// One more message of an open group.
proof fn lemma_adjacent_step(
    rs: Seq<MessageView>,
    os: Seq<MessageView>,
    s: Seq<MessageView>,
)
    requires
        s.len() > 0,
    ensures
        s[0] is ToolResult ==> adjacent_from(true, rs, os, s) == adjacent_from(
            true,
            rs.push(s[0]),
            os,
            s.skip(1),
        ),
        s[0] is User ==> adjacent_from(true, rs, os, s) == adjacent_from(
            true,
            rs,
            os.push(s[0]),
            s.skip(1),
        ),
        s[0] is Assistant ==> adjacent_from(true, rs, os, s) == rs + os + adjacent(s),
        adjacent(s) == seq![s[0]] + adjacent_from(calls(s[0]).len() > 0, seq![], seq![], s.skip(1)),
{
    let rest = s.skip(1);
    lemma_group_len(s);
    lemma_group_len(rest);
    if s[0] is Assistant {
        assert(s.take(0) == Seq::<MessageView>::empty());
        assert(s.skip(0) == s);
        assert(rs + results(s.take(0)) + os + others(s.take(0)) + adjacent(s) == rs + os
            + adjacent(s));
    } else {
        let n = group_len(s) as int;
        let g = s.take(n);
        let h = rest.take(n - 1);
        assert(g.skip(1) == h);
        assert(s.skip(n) == rest.skip(n - 1));
        if s[0] is ToolResult {
            assert(rs + (seq![s[0]] + results(h)) == rs.push(s[0]) + results(h));
        } else {
            assert(rs + results(h) + os + (seq![s[0]] + others(h)) == rs + results(h) + os.push(
                s[0],
            ) + others(h));
        }
    }
    let e = Seq::<MessageView>::empty();
    if calls(s[0]).len() > 0 {
        let n = group_len(rest) as int;
        let g = rest.take(n);
        assert(e + results(g) + e + others(g) + adjacent(rest.skip(n)) == results(g) + others(g)
            + adjacent(rest.skip(n)));
        assert(seq![s[0]] + results(g) + others(g) + adjacent(rest.skip(n)) == seq![s[0]] + (
        results(g) + others(g) + adjacent(rest.skip(n))));
    } else {
        assert(e + e + adjacent(rest) == adjacent(rest));
    }
}

/// Moves what stands among the results of a tool-calling assistant message behind them, so
/// that the results follow the calls directly.
pub fn enforce_tool_result_adjacency(messages: &mut Vec<Message>)
    ensures
        self::messages(final(messages)@) == adjacent(self::messages(old(messages)@)),
{
    let mut all: Vec<Message> = Vec::new();
    std::mem::swap(messages, &mut all);
    let ghost s = self::messages(all@);
    let ghost start = all@;
    let mut out: Vec<Message> = Vec::new();
    let mut rs: Vec<Message> = Vec::new();
    let mut os: Vec<Message> = Vec::new();
    let mut open: bool = false;
    proof {
        assert(s.skip(0) == s);
        let e = Seq::<MessageView>::empty();
        assert(self::messages(out@) == e);
        assert(e + (e + e + adjacent(s)) == adjacent(s));
    }
    for m in it: all
        invariant
            it.seq() == start,
            s == self::messages(start),
            adjacent(s) == self::messages(out@) + adjacent_from(
                open,
                self::messages(rs@),
                self::messages(os@),
                s.skip(it.index()),
            ),
            !open ==> rs@.len() == 0 && os@.len() == 0,
    {
        let ghost rest = s.skip(it.index());
        let ghost rv = self::messages(rs@);
        let ghost ov = self::messages(os@);
        let ghost done = self::messages(out@);
        proof {
            assert(rest[0] == m@);
            assert(rest.skip(1) == s.skip(it.index() + 1));
            lemma_adjacent_step(rv, ov, rest);
            lemma_messages_push(rs@, m);
            lemma_messages_push(os@, m);
            lemma_messages_push(out@, m);
        }
        match &m {
            Message::Assistant(_) => {
                proof {
                    lemma_messages_add(out@, rs@);
                    lemma_messages_add(out@ + rs@, os@);
                    lemma_messages_push(out@ + rs@ + os@, m);
                    let e = Seq::<MessageView>::empty();
                    assert(self::messages(Seq::<Message>::empty()) == e);
                    if !open {
                        assert(rv == e && ov == e);
                    }
                    assert(adjacent_from(open, rv, ov, rest) == rv + ov + adjacent(rest));
                    assert(done + (rv + ov + (seq![m@] + adjacent_from(
                        calls(m@).len() > 0,
                        e,
                        e,
                        rest.skip(1),
                    ))) == (done + rv + ov).push(m@) + adjacent_from(
                        calls(m@).len() > 0,
                        e,
                        e,
                        rest.skip(1),
                    ));
                }
                open = calls_tools(&m);
                out.append(&mut rs);
                out.append(&mut os);
                out.push(m);
            },
            Message::ToolResult(_) => {
                if open {
                    rs.push(m);
                } else {
                    proof {
                        let e = Seq::<MessageView>::empty();
                        assert(rv == e && ov == e);
                        assert(e + e + adjacent(rest) == adjacent(rest));
                        assert(e + e + adjacent(rest.skip(1)) == adjacent(rest.skip(1)));
                        assert(done + (seq![m@] + adjacent(rest.skip(1))) == done.push(m@)
                            + adjacent(rest.skip(1)));
                    }
                    out.push(m);
                }
            },
            Message::User(_) => {
                if open {
                    os.push(m);
                } else {
                    proof {
                        let e = Seq::<MessageView>::empty();
                        assert(rv == e && ov == e);
                        assert(e + e + adjacent(rest) == adjacent(rest));
                        assert(e + e + adjacent(rest.skip(1)) == adjacent(rest.skip(1)));
                        assert(done + (seq![m@] + adjacent(rest.skip(1))) == done.push(m@)
                            + adjacent(rest.skip(1)));
                    }
                    out.push(m);
                }
            },
        }
    }
    proof {
        let e = Seq::<MessageView>::empty();
        let rv = self::messages(rs@);
        let ov = self::messages(os@);
        assert(s.skip(s.len() as int) == e);
        assert(e.take(0) == e);
        assert(e.skip(0) == e);
        assert(rv + e + ov + e + e == rv + ov);
        assert(rv + ov + e == rv + ov);
        lemma_messages_add(out@, rs@);
        lemma_messages_add(out@ + rs@, os@);
        assert(self::messages(out@) + (rv + ov) == self::messages(out@) + rv + ov);
    }
    out.append(&mut rs);
    out.append(&mut os);
    std::mem::swap(messages, &mut out);
}

/// Whether a message is the result of the call with the given id.
pub open spec fn is_result_of(m: MessageView, id: Seq<char>) -> bool {
    m is ToolResult && m->ToolResult_0.tool_call_id == id
}

/// Whether the call with the given id has a result among the messages.
pub open spec fn answered(s: Seq<MessageView>, id: Seq<char>) -> bool {
    exists|i: int| 0 <= i < s.len() && is_result_of(#[trigger] s[i], id)
}

/// The calls without a result among the messages.
pub open spec fn unanswered(
    cs: Seq<(Seq<char>, Seq<char>)>,
    s: Seq<MessageView>,
) -> Seq<(Seq<char>, Seq<char>)>
    decreases cs.len(),
{
    if cs.len() == 0 {
        seq![]
    } else if answered(s, cs.last().0) {
        unanswered(cs.drop_last(), s)
    } else {
        unanswered(cs.drop_last(), s).push(cs.last())
    }
}

/// What a stand-in for a missing result says.
pub open spec fn missing_text() -> Seq<char> {
    "Tool result missing from history (the turn was interrupted or the result was dropped by a context transform); synthesized so the request stays valid."@
}

/// The stand-in for the missing result of a call.
pub open spec fn stub(call: (Seq<char>, Seq<char>), now: u64) -> MessageView {
    MessageView::ToolResult(
        ToolResultView {
            tool_call_id: call.0,
            tool_name: call.1,
            content: seq![BlockView::Text(missing_text())],
            details: Some(
                JsonView::Object(map!["errorKind"@ => JsonView::Text("missing_result"@)]),
            ),
            is_error: true,
            terminate: false,
            timestamp: now,
        },
    )
}

/// The stand-ins for the results of the calls, the last call first.
pub open spec fn stubs(cs: Seq<(Seq<char>, Seq<char>)>, now: u64) -> Seq<MessageView>
    decreases cs.len(),
{
    if cs.len() == 0 {
        seq![]
    } else {
        seq![stub(cs.last(), now)] + stubs(cs.drop_last(), now)
    }
}

/// The conversation in which every call without a result before the next assistant message
/// has a stand-in for it, directly behind the message that makes the call.
pub open spec fn filled(s: Seq<MessageView>, now: u64) -> Seq<MessageView>
    decreases s.len(),
{
    if s.len() == 0 {
        seq![]
    } else {
        let rest = s.skip(1);
        let group = rest.take(group_len(rest) as int);
        seq![s[0]] + stubs(unanswered(calls(s[0]), group), now) + filled(rest, now)
    }
}

/// Where the group of messages that starts at `from` ends.
fn group_end(messages: &Vec<Message>, from: usize) -> (end: usize)
    requires
        from <= messages@.len(),
    ensures
        from <= end <= messages@.len(),
        end - from == group_len(self::messages(messages@).skip(from as int)),
{
    let ghost s = self::messages(messages@);
    let mut end: usize = from;
    while end < messages.len()
        invariant
            from <= end <= messages@.len(),
            s == self::messages(messages@),
            group_len(s.skip(from as int)) == end - from + group_len(s.skip(end as int)),
        decreases messages@.len() - end,
    {
        proof {
            assert(s.skip(end as int).skip(1) == s.skip(end + 1));
            assert(s.skip(end as int)[0] == messages@[end as int]@);
        }
        if let Message::Assistant(_) = &messages[end] {
            return end;
        }
        end = end + 1;
    }
    end
}

/// Whether the messages between two positions hold a result of the call with the given id.
fn is_answered(messages: &Vec<Message>, from: usize, to: usize, id: &str) -> (r: bool)
    requires
        from <= to <= messages@.len(),
    ensures
        r == answered(self::messages(messages@).subrange(from as int, to as int), id@),
{
    let ghost g = self::messages(messages@).subrange(from as int, to as int);
    let mut i: usize = from;
    while i < to
        invariant
            from <= i <= to <= messages@.len(),
            g == self::messages(messages@).subrange(from as int, to as int),
            forall|j: int| 0 <= j < i - from ==> !is_result_of(#[trigger] g[j], id@),
        decreases to - i,
    {
        assert(g[i - from] == messages@[i as int]@);
        if let Message::ToolResult(r) = &messages[i] {
            if same(&r.tool_call_id, id) {
                return true;
            }
        }
        i = i + 1;
    }
    false
}

/// The calls of the message at `i` that have no result before `to`.
fn unanswered_calls(messages: &Vec<Message>, i: usize, to: usize) -> (r: Vec<(String, String)>)
    requires
        i < to <= messages@.len(),
    ensures
        text_pairs(r@) == unanswered(
            calls(messages@[i as int]@),
            self::messages(messages@).subrange(i + 1, to as int),
        ),
{
    let mut out: Vec<(String, String)> = Vec::new();
    let ghost g = self::messages(messages@).subrange(i + 1, to as int);
    if let Message::Assistant(a) = &messages[i] {
        let ghost all = a@.content;
        let mut k: usize = 0;
        while k < a.content.len()
            invariant
                i < to <= messages@.len(),
                g == self::messages(messages@).subrange(i + 1, to as int),
                k <= a.content@.len(),
                all == a@.content,
                text_pairs(out@) == unanswered(block_calls(all.take(k as int)), g),
            decreases a.content@.len() - k,
        {
            proof {
                assert(all.take(k + 1).drop_last() == all.take(k as int));
                assert(all.take(k + 1).last() == a.content@[k as int]@);
            }
            if let ContentBlock::ToolCall { id, name, .. } = &a.content[k] {
                proof {
                    let cs = block_calls(all.take(k as int));
                    assert(block_calls(all.take(k + 1)) == cs.push((id@, name@)));
                    assert(cs.push((id@, name@)).drop_last() == cs);
                }
                if !is_answered(messages, i + 1, to, id) {
                    let pair: (String, String) = (owned(id), owned(name));
                    proof {
                        assert(text_pairs(out@.push(pair)) == text_pairs(out@).push((id@, name@)));
                    }
                    out.push(pair);
                }
            }
            k = k + 1;
        }
        assert(all.take(k as int) == all);
    } else {
        assert(text_pairs(out@) == Seq::<(Seq<char>, Seq<char>)>::empty());
    }
    out
}

/// The stand-in for the missing result of a call.
fn make_stub(id: &str, name: &str, now: u64) -> (r: Message)
    ensures
        r@ == stub((id@, name@), now),
{
    let mut fields: Vec<(String, Json)> = Vec::new();
    fields.push((owned("errorKind"), Json::Text(owned("missing_result"))));
    let mut content: Vec<ContentBlock> = Vec::new();
    content.push(
        ContentBlock::text(
            "Tool result missing from history (the turn was interrupted or the result was dropped by a context transform); synthesized so the request stays valid.",
        ),
    );
    proof {
        reveal_with_fuel(field_trees, 2);
        reveal_with_fuel(Json::tree, 2);
        assert(fields@.drop_last() == Seq::<(String, Json)>::empty());
        assert(field_trees(fields@) == map!["errorKind"@ => JsonView::Text("missing_result"@)]);
        assert(crate::ai::message::blocks(content@) == seq![BlockView::Text(missing_text())]);
    }
    Message::ToolResult(
        ToolResultMessage {
            tool_call_id: owned(id),
            tool_name: owned(name),
            content,
            details: Some(Json::Object(fields)),
            is_error: true,
            terminate: false,
            timestamp: now,
        },
    )
}

/// Gives every call without a result a stand-in for it, with the time `now`.
#[verifier::rlimit(40)]
pub fn backfill_missing_tool_results(messages: &mut Vec<Message>, now: u64)
    ensures
        self::messages(final(messages)@) == filled(self::messages(old(messages)@), now),
{
    let ghost s = self::messages(messages@);
    let mut i: usize = 0;
    proof {
        assert(s.skip(0) == s);
        assert(s.take(0) + filled(s, now) == filled(s, now));
    }
    while i < messages.len()
        invariant
            i <= messages@.len(),
            filled(s, now) == self::messages(messages@).take(i as int) + filled(
                self::messages(messages@).skip(i as int),
                now,
            ),
        decreases messages@.len() - i,
    {
        let ghost cur = self::messages(messages@);
        let start: usize = i + 1;
        let end: usize = group_end(messages, start);
        let missing: Vec<(String, String)> = unanswered_calls(messages, i, end);
        let ghost ms = text_pairs(missing@);
        let ghost rest = cur.skip(start as int);
        proof {
            lemma_group_len(rest);
            assert(rest.take(end - start) == cur.subrange(start as int, end as int));
            assert(cur.skip(i as int).skip(1) == rest);
            assert(ms.take(0) == Seq::<(Seq<char>, Seq<char>)>::empty());
            assert(cur == cur.take(start as int) + stubs(ms.take(0), now) + rest);
        }
        let count: usize = missing.len();
        let mut k: usize = 0;
        while k < count
            invariant
                k <= count,
                count == missing@.len(),
                start <= cur.len(),
                ms == text_pairs(missing@),
                rest == cur.skip(start as int),
                self::messages(messages@) == cur.take(start as int) + stubs(ms.take(k as int), now)
                    + rest,
            decreases count - k,
        {
            let m: Message = make_stub(&missing[k].0, &missing[k].1, now);
            proof {
                assert(ms.take(k + 1).drop_last() == ms.take(k as int));
                assert(ms.take(k + 1).last() == ms[k as int]);
                let before = self::messages(messages@);
                assert(before.len() == messages@.len());
                assert(self::messages(messages@.insert(start as int, m)) == before.insert(
                    start as int,
                    m@,
                ));
                assert(before.insert(start as int, m@) == cur.take(start as int) + (seq![m@]
                    + stubs(ms.take(k as int), now)) + rest);
            }
            messages.insert(start, m);
            k = k + 1;
        }
        let total: usize = messages.len();
        proof {
            assert(ms.take(count as int) == ms);
            lemma_stubs_len(ms, now);
            let done = cur.take(start as int) + stubs(ms, now);
            let next = self::messages(messages@);
            let at = start + count;
            assert(next.take(at) == done);
            assert(next.skip(at) == rest);
            assert(cur.take(i as int) + (seq![cur[i as int]] + stubs(ms, now) + filled(rest, now))
                == done + filled(rest, now));
            assert(total == next.len());
        }
        i = start + count;
    }
    proof {
        let cur = self::messages(messages@);
        assert(cur.take(i as int) == cur);
        assert(cur.skip(i as int) == Seq::<MessageView>::empty());
        assert(cur + Seq::<MessageView>::empty() == cur);
    }
}

proof fn lemma_stubs_len(cs: Seq<(Seq<char>, Seq<char>)>, now: u64)
    ensures
        stubs(cs, now).len() == cs.len(),
        forall|i: int|
            0 <= i < cs.len() ==> #[trigger] stubs(cs, now)[i] == stub(cs[cs.len() - 1 - i], now),
    decreases cs.len(),
{
    if cs.len() > 0 {
        lemma_stubs_len(cs.drop_last(), now);
        assert forall|i: int| 0 <= i < cs.len() implies #[trigger] stubs(cs, now)[i] == stub(
            cs[cs.len() - 1 - i],
            now,
        ) by {
            if i > 0 {
                assert(stubs(cs, now)[i] == stubs(cs.drop_last(), now)[i - 1]);
            }
        }
    }
}

/// Whether the results stand before everything else.
pub open spec fn results_lead(s: Seq<MessageView>) -> bool {
    forall|i: int, j: int|
        0 <= i < j < s.len() && (#[trigger] s[j] is ToolResult) ==> (#[trigger] s[i] is ToolResult)
}

/// What follows a message up to the next assistant message.
pub open spec fn group_of(rest: Seq<MessageView>) -> Seq<MessageView> {
    rest.take(group_len(rest) as int)
}

/// Whether behind every message that calls tools the results come first.
pub open spec fn all_adjacent(s: Seq<MessageView>) -> bool
    decreases s.len(),
{
    if s.len() == 0 {
        true
    } else {
        (calls(s[0]).len() > 0 ==> results_lead(group_of(s.skip(1)))) && all_adjacent(s.skip(1))
    }
}

/// Whether every call has a result before the next assistant message.
pub open spec fn all_answered(s: Seq<MessageView>) -> bool
    decreases s.len(),
{
    if s.len() == 0 {
        true
    } else {
        unanswered(calls(s[0]), group_of(s.skip(1))).len() == 0 && all_answered(s.skip(1))
    }
}

/// Whether none of the messages is an assistant message.
spec fn no_assistant(s: Seq<MessageView>) -> bool {
    forall|i: int| 0 <= i < s.len() ==> !(#[trigger] s[i] is Assistant)
}

proof fn lemma_group_of_add(a: Seq<MessageView>, b: Seq<MessageView>)
    requires
        no_assistant(a),
    ensures
        group_len(a + b) == a.len() + group_len(b),
        group_of(a + b) == a + group_of(b),
    decreases a.len(),
{
    lemma_group_len(b);
    if a.len() == 0 {
        assert(a + b == b);
        assert(a + group_of(b) == group_of(b));
    } else {
        assert(!(a[0] is Assistant));
        assert((a + b)[0] == a[0]);
        assert((a + b).skip(1) == a.skip(1) + b);
        assert forall|i: int| 0 <= i < a.skip(1).len() implies !(#[trigger] a.skip(
            1,
        )[i] is Assistant) by {
            assert(a.skip(1)[i] == a[i + 1]);
        }
        lemma_group_of_add(a.skip(1), b);
        assert(group_of(a + b) =~= a + group_of(b));
    }
}

proof fn lemma_results_others_add(a: Seq<MessageView>, b: Seq<MessageView>)
    ensures
        results(a + b) == results(a) + results(b),
        others(a + b) == others(a) + others(b),
    decreases a.len(),
{
    if a.len() == 0 {
        assert(a + b == b);
        assert(results(a) + results(b) == results(b));
        assert(others(a) + others(b) == others(b));
    } else {
        assert((a + b).skip(1) == a.skip(1) + b);
        lemma_results_others_add(a.skip(1), b);
        if a[0] is ToolResult {
            assert(seq![a[0]] + (results(a.skip(1)) + results(b)) == seq![a[0]] + results(a.skip(1))
                + results(b));
        } else {
            assert(seq![a[0]] + (others(a.skip(1)) + others(b)) == seq![a[0]] + others(a.skip(1))
                + others(b));
        }
    }
}

/// What the two parts of a row of messages hold.
proof fn lemma_results_others(s: Seq<MessageView>)
    ensures
        results(s).len() + others(s).len() == s.len(),
        forall|i: int| 0 <= i < results(s).len() ==> (#[trigger] results(s)[i] is ToolResult),
        forall|i: int| 0 <= i < others(s).len() ==> !(#[trigger] others(s)[i] is ToolResult),
        no_assistant(s) ==> no_assistant(others(s)),
        results(results(s)) == results(s),
        others(results(s)) == Seq::<MessageView>::empty(),
        results(others(s)) == Seq::<MessageView>::empty(),
        others(others(s)) == others(s),
    decreases s.len(),
{
    if s.len() > 0 {
        let t = s.skip(1);
        lemma_results_others(t);
        if no_assistant(s) {
            assert forall|i: int| 0 <= i < t.len() implies !(#[trigger] t[i] is Assistant) by {
                assert(t[i] == s[i + 1]);
            }
            assert(!(s[0] is Assistant));
        }
        if s[0] is ToolResult {
            assert(results(s).skip(1) == results(t));
        } else {
            assert(others(s).skip(1) == others(t));
            assert forall|i: int| 0 <= i < others(s).len() && no_assistant(s) implies !(
            #[trigger] others(s)[i] is Assistant) by {
                if i > 0 {
                    assert(others(s)[i] == others(t)[i - 1]);
                }
            }
        }
    }
}

/// A group is put into order, and keeps its results and its other messages.
proof fn lemma_ordered_group(g: Seq<MessageView>)
    requires
        no_assistant(g),
    ensures
        no_assistant(results(g) + others(g)),
        results_lead(results(g) + others(g)),
        results(results(g) + others(g)) == results(g),
        others(results(g) + others(g)) == others(g),
{
    lemma_results_others(g);
    let r = results(g);
    let o = others(g);
    assert forall|i: int| 0 <= i < (r + o).len() implies !(#[trigger] (r + o)[i] is Assistant) by {
        if i < r.len() {
            assert((r + o)[i] == r[i]);
        } else {
            assert((r + o)[i] == o[i - r.len()]);
        }
    }
    assert forall|i: int, j: int|
        0 <= i < j < (r + o).len() && (#[trigger] (r + o)[j] is ToolResult) implies (#[trigger] (r
        + o)[i] is ToolResult) by {
        if j >= r.len() {
            assert((r + o)[j] == o[j - r.len()]);
        } else {
            assert((r + o)[i] == r[i]);
        }
    }
    lemma_results_others_add(r, o);
    assert(r + Seq::<MessageView>::empty() == r);
    assert(Seq::<MessageView>::empty() + o == o);
}

proof fn lemma_lead_fixed(g: Seq<MessageView>)
    requires
        results_lead(g),
    ensures
        results(g) + others(g) == g,
    decreases g.len(),
{
    if g.len() > 0 {
        let t = g.skip(1);
        assert forall|i: int, j: int|
            0 <= i < j < t.len() && (#[trigger] t[j] is ToolResult) implies (
        #[trigger] t[i] is ToolResult) by {
            assert(t[i] == g[i + 1]);
            assert(t[j] == g[j + 1]);
        }
        lemma_lead_fixed(t);
        if g[0] is ToolResult {
            assert(seq![g[0]] + results(t) + others(t) == seq![g[0]] + (results(t) + others(t)));
        } else {
            lemma_results_others(t);
            if results(t).len() > 0 {
                assert((results(t) + others(t))[0] == results(t)[0]);
                assert(t[0] is ToolResult);
                assert(g[1] is ToolResult);
            }
            assert(results(t) + (seq![g[0]] + others(t)) == seq![g[0]] + (results(t) + others(t)));
        }
        assert(g == seq![g[0]] + t);
    }
}

proof fn lemma_skip_group(s: Seq<MessageView>)
    ensures
        no_assistant(group_of(s)),
        group_of(s) + s.skip(group_len(s) as int) == s,
        s.skip(group_len(s) as int).len() == 0 || s.skip(group_len(s) as int)[0] is Assistant,
        group_len(s.skip(group_len(s) as int)) == 0,
        s.skip(group_len(s) as int).len() <= s.len(),
{
    lemma_group_len(s);
    assert forall|i: int| 0 <= i < group_of(s).len() implies !(#[trigger] group_of(
        s,
    )[i] is Assistant) by {
        assert(group_of(s)[i] == s[i]);
    }
}

proof fn lemma_all_adjacent_add(a: Seq<MessageView>, b: Seq<MessageView>)
    requires
        no_assistant(a),
    ensures
        all_adjacent(a + b) == all_adjacent(b),
        all_answered(a + b) == all_answered(b),
    decreases a.len(),
{
    if a.len() == 0 {
        assert(a + b == b);
    } else {
        assert(!(a[0] is Assistant));
        assert((a + b)[0] == a[0]);
        assert((a + b).skip(1) == a.skip(1) + b);
        assert forall|i: int| 0 <= i < a.skip(1).len() implies !(#[trigger] a.skip(
            1,
        )[i] is Assistant) by {
            assert(a.skip(1)[i] == a[i + 1]);
        }
        lemma_all_adjacent_add(a.skip(1), b);
    }
}

proof fn lemma_adjacent_head(s: Seq<MessageView>)
    ensures
        s.len() > 0 ==> adjacent(s).len() > 0 && adjacent(s)[0] == s[0],
        s.len() == 0 ==> adjacent(s).len() == 0,
{
}

/// After the repair, behind every message that calls tools its results come first; no message
/// is lost or added, and the results, as well as the other messages, keep their order.
pub proof fn lemma_adjacency_repairs(s: Seq<MessageView>)
    ensures
        all_adjacent(adjacent(s)),
        adjacent(s).len() == s.len(),
        results(adjacent(s)) == results(s),
        others(adjacent(s)) == others(s),
    decreases s.len(),
{
    if s.len() > 0 {
        let rest = s.skip(1);
        let head = seq![s[0]];
        assert(s == head + rest);
        if calls(s[0]).len() == 0 {
            lemma_adjacency_repairs(rest);
            assert(adjacent(s).skip(1) == adjacent(rest));
            lemma_results_others_add(head, rest);
            lemma_results_others_add(head, adjacent(rest));
        } else {
            let n = group_len(rest) as int;
            let g = group_of(rest);
            let tail = rest.skip(n);
            lemma_skip_group(rest);
            lemma_group_len(rest);
            lemma_adjacency_repairs(tail);
            lemma_ordered_group(g);
            lemma_results_others(g);
            let o = results(g) + others(g);
            let at = adjacent(tail);
            assert(adjacent(s) == head + o + at);
            assert(adjacent(s).skip(1) == o + at);
            lemma_adjacent_head(tail);
            lemma_group_of_add(o, at);
            assert(group_len(at) == 0);
            assert(group_of(at) == Seq::<MessageView>::empty());
            assert(o + group_of(at) == o);
            lemma_all_adjacent_add(o, at);
            assert(head + o + at == head + (o + at));
            lemma_results_others_add(head, o + at);
            lemma_results_others_add(o, at);
            lemma_results_others_add(head, rest);
            lemma_results_others_add(g, tail);
        }
    }
}

/// A conversation whose results are in place stays as it is.
pub proof fn lemma_adjacency_keeps(s: Seq<MessageView>)
    requires
        all_adjacent(s),
    ensures
        adjacent(s) == s,
    decreases s.len(),
{
    if s.len() > 0 {
        let rest = s.skip(1);
        assert(s == seq![s[0]] + rest);
        if calls(s[0]).len() == 0 {
            lemma_adjacency_keeps(rest);
        } else {
            let n = group_len(rest) as int;
            let g = group_of(rest);
            let tail = rest.skip(n);
            lemma_skip_group(rest);
            lemma_all_adjacent_add(g, tail);
            lemma_adjacency_keeps(tail);
            lemma_lead_fixed(g);
            assert(seq![s[0]] + results(g) + others(g) + tail == seq![s[0]] + ((results(g) + others(
                g,
            )) + tail));
        }
    }
}

/// Repairing twice is repairing once.
pub proof fn lemma_adjacency_idempotent(s: Seq<MessageView>)
    ensures
        adjacent(adjacent(s)) == adjacent(s),
{
    lemma_adjacency_repairs(s);
    lemma_adjacency_keeps(adjacent(s));
}

proof fn lemma_unanswered_none(
    cs: Seq<(Seq<char>, Seq<char>)>,
    g: Seq<MessageView>,
    now: u64,
)
    ensures
        unanswered(cs, stubs(unanswered(cs, g), now) + g).len() == 0,
{
    let ms = unanswered(cs, g);
    let st = stubs(ms, now);
    lemma_stubs_len(ms, now);
    assert forall|i: int| 0 <= i < cs.len() implies answered(st + g, #[trigger] cs[i].0) by {
        if answered(g, cs[i].0) {
            let j = choose|j: int| 0 <= j < g.len() && is_result_of(#[trigger] g[j], cs[i].0);
            assert((st + g)[st.len() + j] == g[j]);
        } else {
            lemma_unanswered_has(cs, g, i);
            let j = choose|j: int| 0 <= j < ms.len() && ms[j] == cs[i];
            let k = ms.len() - 1 - j;
            assert(st[k] == stub(ms[j], now));
            assert((st + g)[k] == st[k]);
            assert(is_result_of((st + g)[k], cs[i].0));
        }
    }
    lemma_unanswered_empty(cs, st + g);
}

proof fn lemma_unanswered_has(cs: Seq<(Seq<char>, Seq<char>)>, g: Seq<MessageView>, i: int)
    requires
        0 <= i < cs.len(),
        !answered(g, cs[i].0),
    ensures
        unanswered(cs, g).contains(cs[i]),
    decreases cs.len(),
{
    let d = unanswered(cs.drop_last(), g);
    if i == cs.len() - 1 {
        assert(unanswered(cs, g) == d.push(cs.last()));
        assert(d.push(cs.last())[d.len() as int] == cs[i]);
    } else {
        lemma_unanswered_has(cs.drop_last(), g, i);
        let j = choose|j: int| 0 <= j < d.len() && d[j] == cs[i];
        assert(unanswered(cs, g)[j] == cs[i]);
    }
}

proof fn lemma_unanswered_empty(cs: Seq<(Seq<char>, Seq<char>)>, g: Seq<MessageView>)
    requires
        forall|i: int| 0 <= i < cs.len() ==> answered(g, #[trigger] cs[i].0),
    ensures
        unanswered(cs, g).len() == 0,
    decreases cs.len(),
{
    if cs.len() > 0 {
        assert(answered(g, cs[cs.len() - 1].0));
        assert forall|i: int| 0 <= i < cs.drop_last().len() implies answered(
            g,
            #[trigger] cs.drop_last()[i].0,
        ) by {
            assert(cs.drop_last()[i] == cs[i]);
        }
        lemma_unanswered_empty(cs.drop_last(), g);
    }
}

proof fn lemma_stubs_are_results(cs: Seq<(Seq<char>, Seq<char>)>, now: u64)
    ensures
        no_assistant(stubs(cs, now)),
        forall|i: int| 0 <= i < stubs(cs, now).len() ==> (#[trigger] stubs(cs, now)[i] is ToolResult),
        others(stubs(cs, now)) == Seq::<MessageView>::empty(),
    decreases cs.len(),
{
    if cs.len() > 0 {
        lemma_stubs_are_results(cs.drop_last(), now);
        let t = stubs(cs.drop_last(), now);
        assert(stubs(cs, now).skip(1) == t);
        assert forall|i: int| 0 <= i < stubs(cs, now).len() implies (#[trigger] stubs(
            cs,
            now,
        )[i] is ToolResult) by {
            if i > 0 {
                assert(stubs(cs, now)[i] == t[i - 1]);
            }
        }
    }
}

/// The stand-ins do not move the next assistant message away from a group.
proof fn lemma_filled_group(s: Seq<MessageView>, now: u64)
    ensures
        group_of(filled(s, now)) == group_of(s),
    decreases s.len(),
{
    if s.len() > 0 && !(s[0] is Assistant) {
        let rest = s.skip(1);
        lemma_filled_group(rest, now);
        let head = seq![s[0]];
        assert(s == head + rest);
        let none = stubs(unanswered(calls(s[0]), group_of(rest)), now);
        assert(head + none + filled(rest, now) == head + filled(rest, now));
        assert(no_assistant(head));
        lemma_group_of_add(head, rest);
        lemma_group_of_add(head, filled(rest, now));
    } else {
        assert(group_of(filled(s, now)) == group_of(s));
    }
}

/// After the stand-ins are in, every call has a result before the next assistant message;
/// the messages that are no results stay as they were, and results that led still lead.
pub proof fn lemma_backfill_answers(s: Seq<MessageView>, now: u64)
    ensures
        all_answered(filled(s, now)),
        others(filled(s, now)) == others(s),
        all_adjacent(s) ==> all_adjacent(filled(s, now)),
    decreases s.len(),
{
    if s.len() > 0 {
        let rest = s.skip(1);
        let head = seq![s[0]];
        let g = group_of(rest);
        let ms = unanswered(calls(s[0]), g);
        let st = stubs(ms, now);
        let f = filled(rest, now);
        lemma_backfill_answers(rest, now);
        lemma_stubs_are_results(ms, now);
        lemma_filled_group(rest, now);
        lemma_group_of_add(st, f);
        lemma_unanswered_none(calls(s[0]), g, now);
        lemma_all_adjacent_add(st, f);
        assert(filled(s, now) == head + st + f);
        assert(filled(s, now).skip(1) == st + f);
        assert(s == head + rest);
        assert(head + st + f == head + (st + f));
        lemma_results_others_add(head, st + f);
        lemma_results_others_add(st, f);
        lemma_results_others_add(head, rest);
        assert(Seq::<MessageView>::empty() + others(f) == others(f));
        if all_adjacent(s) && calls(s[0]).len() > 0 {
            assert forall|i: int, j: int|
                0 <= i < j < (st + g).len() && (#[trigger] (st + g)[j] is ToolResult) implies (
            #[trigger] (st + g)[i] is ToolResult) by {
                if i < st.len() {
                    assert((st + g)[i] == st[i]);
                } else {
                    assert((st + g)[i] == g[i - st.len()]);
                    assert((st + g)[j] == g[j - st.len()]);
                }
            }
            assert(results_lead(group_of(st + f)));
        }
    }
}

/// A conversation in which every call has its result gets no stand-ins.
pub proof fn lemma_backfill_keeps(s: Seq<MessageView>, now: u64)
    requires
        all_answered(s),
    ensures
        filled(s, now) == s,
    decreases s.len(),
{
    if s.len() > 0 {
        let rest = s.skip(1);
        lemma_backfill_keeps(rest, now);
        let none = stubs(unanswered(calls(s[0]), group_of(rest)), now);
        assert(seq![s[0]] + none + rest == s);
    }
}

/// Filling in twice is filling in once.
pub proof fn lemma_backfill_idempotent(s: Seq<MessageView>, now: u64, later: u64)
    ensures
        filled(filled(s, now), later) == filled(s, now),
{
    lemma_backfill_answers(s, now);
    lemma_backfill_keeps(filled(s, now), later);
}

/// Both repairs, one after the other, leave a conversation in which every call is followed by
/// results first and has its own among them.
pub proof fn lemma_repaired(s: Seq<MessageView>, now: u64)
    ensures
        all_adjacent(filled(adjacent(s), now)),
        all_answered(filled(adjacent(s), now)),
{
    lemma_adjacency_repairs(s);
    lemma_backfill_answers(adjacent(s), now);
}

/// Every block that calls a tool is among the calls, wherever it stands.
proof fn lemma_block_is_call(s: Seq<BlockView>, k: int)
    requires
        0 <= k < s.len(),
        s[k] is ToolCall,
    ensures
        block_calls(s).contains((s[k]->ToolCall_id, s[k]->ToolCall_name)),
    decreases s.len(),
{
    let call = (s[k]->ToolCall_id, s[k]->ToolCall_name);
    let d = block_calls(s.drop_last());
    if k == s.len() - 1 {
        assert(block_calls(s)[d.len() as int] == call);
    } else {
        lemma_block_is_call(s.drop_last(), k);
        let c = choose|c: int| 0 <= c < d.len() && d[c] == call;
        assert(block_calls(s)[c] == call);
    }
}

/// Every call is one of the blocks.
proof fn lemma_call_is_block(s: Seq<BlockView>, c: int)
    requires
        0 <= c < block_calls(s).len(),
    ensures
        exists|k: int|
            0 <= k < s.len() && (#[trigger] s[k]) is ToolCall && block_calls(s)[c] == (
                s[k]->ToolCall_id,
                s[k]->ToolCall_name,
            ),
    decreases s.len(),
{
    let d = block_calls(s.drop_last());
    if c < d.len() {
        lemma_call_is_block(s.drop_last(), c);
        let k = choose|k: int|
            0 <= k < s.drop_last().len() && (#[trigger] s.drop_last()[k]) is ToolCall && d[c] == (
                s.drop_last()[k]->ToolCall_id,
                s.drop_last()[k]->ToolCall_name,
            );
        assert(s[k] is ToolCall);
    } else {
        assert(s[s.len() - 1] is ToolCall);
    }
}

proof fn lemma_all_at(r: Seq<MessageView>, i: int)
    requires
        0 <= i < r.len(),
    ensures
        all_answered(r) ==> unanswered(calls(r[i]), group_of(r.skip(i + 1))).len() == 0,
        all_adjacent(r) && calls(r[i]).len() > 0 ==> results_lead(group_of(r.skip(i + 1))),
    decreases i,
{
    if i > 0 {
        lemma_all_at(r.skip(1), i - 1);
        assert(r.skip(1).skip(i) =~= r.skip(i + 1));
    }
}

/// The messages behind `i` up to `j` are in the group of `i`, where no assistant message is among
/// them.
proof fn lemma_in_group(r: Seq<MessageView>, i: int, j: int)
    requires
        0 <= i < j < r.len(),
        forall|m: int| i < m <= j ==> !((#[trigger] r[m]) is Assistant),
    ensures
        j - i <= group_len(r.skip(i + 1)),
{
    let rest = r.skip(i + 1);
    let n = group_len(rest) as int;
    lemma_group_len(rest);
    if n < j - i {
        assert(rest[n] == r[i + 1 + n]);
    }
}

proof fn lemma_answered_behind(r: Seq<MessageView>, i: int, k: int)
    requires
        all_answered(r),
        0 <= i < r.len(),
        r[i] is Assistant,
        0 <= k < r[i]->Assistant_0.content.len(),
        r[i]->Assistant_0.content[k] is ToolCall,
    ensures
        exists|j: int|
            i < j < r.len() && (#[trigger] r[j]) is ToolResult
                && r[j]->ToolResult_0.tool_call_id == r[i]->Assistant_0.content[k]->ToolCall_id && (
            forall|m: int| i < m <= j ==> !((#[trigger] r[m]) is Assistant)) && (all_adjacent(r)
                ==> forall|m: int| i < m <= j ==> (#[trigger] r[m]) is ToolResult),
{
    let b = r[i]->Assistant_0.content;
    let id = b[k]->ToolCall_id;
    let rest = r.skip(i + 1);
    let g = group_of(rest);
    lemma_block_is_call(b, k);
    let cs = calls(r[i]);
    let c = choose|c: int| 0 <= c < cs.len() && cs[c] == (id, b[k]->ToolCall_name);
    lemma_all_at(r, i);
    lemma_group_len(rest);
    if !answered(g, cs[c].0) {
        lemma_unanswered_has(cs, g, c);
    }
    let q = choose|q: int| 0 <= q < g.len() && is_result_of(#[trigger] g[q], id);
    let j = i + 1 + q;
    assert(g[q] == r[j]);
    assert forall|m: int| i < m <= j implies !((#[trigger] r[m]) is Assistant) by {
        assert(rest[m - i - 1] == r[m]);
    }
    if all_adjacent(r) {
        assert forall|m: int| i < m <= j implies (#[trigger] r[m]) is ToolResult by {
            assert(g[m - i - 1] == r[m]);
            if m < j {
                assert(g[q] is ToolResult);
                assert(g[m - i - 1] is ToolResult);
            }
        }
    }
    assert(r[j] is ToolResult);
}

/// After the stand-ins are in, every block of an assistant message that calls a tool, wherever it
/// stands in the message, has a result with its id before the next assistant message.
pub proof fn lemma_every_call_has_a_result(s: Seq<MessageView>, now: u64, i: int, k: int)
    requires
        0 <= i < filled(s, now).len(),
        filled(s, now)[i] is Assistant,
        0 <= k < filled(s, now)[i]->Assistant_0.content.len(),
        filled(s, now)[i]->Assistant_0.content[k] is ToolCall,
    ensures
        exists|j: int|
            i < j < filled(s, now).len() && (#[trigger] filled(s, now)[j]) is ToolResult && filled(
                s,
                now,
            )[j]->ToolResult_0.tool_call_id == filled(
                s,
                now,
            )[i]->Assistant_0.content[k]->ToolCall_id && forall|m: int|
                i < m <= j ==> !((#[trigger] filled(s, now)[m]) is Assistant),
{
    lemma_backfill_answers(s, now);
    lemma_answered_behind(filled(s, now), i, k);
}

/// After both repairs, every block of an assistant message that calls a tool, wherever it stands in
/// the message, has a result with its id directly behind the message: nothing but results stands
/// between.
pub proof fn lemma_every_call_is_answered_directly(s: Seq<MessageView>, now: u64, i: int, k: int)
    requires
        0 <= i < filled(adjacent(s), now).len(),
        filled(adjacent(s), now)[i] is Assistant,
        0 <= k < filled(adjacent(s), now)[i]->Assistant_0.content.len(),
        filled(adjacent(s), now)[i]->Assistant_0.content[k] is ToolCall,
    ensures
        exists|j: int|
            i < j < filled(adjacent(s), now).len() && (#[trigger] filled(
                adjacent(s),
                now,
            )[j]) is ToolResult && filled(adjacent(s), now)[j]->ToolResult_0.tool_call_id == filled(
                adjacent(s),
                now,
            )[i]->Assistant_0.content[k]->ToolCall_id && forall|m: int|
                i < m <= j ==> (#[trigger] filled(adjacent(s), now)[m]) is ToolResult,
{
    lemma_repaired(s, now);
    lemma_answered_behind(filled(adjacent(s), now), i, k);
}

proof fn lemma_lead_behind(r: Seq<MessageView>, i: int, k: int, j: int, m: int)
    requires
        all_adjacent(r),
        0 <= i < m < j < r.len(),
        r[i] is Assistant,
        0 <= k < r[i]->Assistant_0.content.len(),
        r[i]->Assistant_0.content[k] is ToolCall,
        r[j] is ToolResult,
        forall|q: int| i < q < j ==> !((#[trigger] r[q]) is Assistant),
    ensures
        r[m] is ToolResult,
{
    lemma_block_is_call(r[i]->Assistant_0.content, k);
    lemma_all_at(r, i);
    lemma_in_group(r, i, j);
    let g = group_of(r.skip(i + 1));
    lemma_group_len(r.skip(i + 1));
    assert(g[j - i - 1] == r[j]);
    assert(g[m - i - 1] == r[m]);
    assert(g[j - i - 1] is ToolResult);
    assert(g[m - i - 1] is ToolResult);
}

/// After the repair of the order, nothing but results stands between an assistant message that calls
/// a tool, with whichever of its blocks, and a result that comes before the next assistant message.
/// The stand-ins do not change that.
pub proof fn lemma_results_come_first(
    s: Seq<MessageView>,
    now: u64,
    i: int,
    k: int,
    j: int,
    m: int,
)
    ensures
        ({
            let r = adjacent(s);
            0 <= i < m < j < r.len() && r[i] is Assistant && 0 <= k
                < r[i]->Assistant_0.content.len() && r[i]->Assistant_0.content[k] is ToolCall
                && r[j] is ToolResult && (forall|q: int|
                i < q < j ==> !((#[trigger] r[q]) is Assistant)) ==> r[m] is ToolResult
        }),
        ({
            let r = filled(adjacent(s), now);
            0 <= i < m < j < r.len() && r[i] is Assistant && 0 <= k
                < r[i]->Assistant_0.content.len() && r[i]->Assistant_0.content[k] is ToolCall
                && r[j] is ToolResult && (forall|q: int|
                i < q < j ==> !((#[trigger] r[q]) is Assistant)) ==> r[m] is ToolResult
        }),
{
    lemma_adjacency_repairs(s);
    lemma_repaired(s, now);
    let a = adjacent(s);
    if 0 <= i < m < j < a.len() && a[i] is Assistant && 0 <= k < a[i]->Assistant_0.content.len()
        && a[i]->Assistant_0.content[k] is ToolCall && a[j] is ToolResult && (forall|q: int|
        i < q < j ==> !((#[trigger] a[q]) is Assistant)) {
        lemma_lead_behind(a, i, k, j, m);
    }
    let f = filled(a, now);
    if 0 <= i < m < j < f.len() && f[i] is Assistant && 0 <= k < f[i]->Assistant_0.content.len()
        && f[i]->Assistant_0.content[k] is ToolCall && f[j] is ToolResult && (forall|q: int|
        i < q < j ==> !((#[trigger] f[q]) is Assistant)) {
        lemma_lead_behind(f, i, k, j, m);
    }
}

proof fn lemma_parts_are_filters(s: Seq<MessageView>)
    ensures
        results(s) == s.filter(|m: MessageView| m is ToolResult),
        others(s) == s.filter(|m: MessageView| !(m is ToolResult)),
    decreases s.len(),
{
    let is_result = |m: MessageView| m is ToolResult;
    let is_other = |m: MessageView| !(m is ToolResult);
    reveal(Seq::filter);
    if s.len() > 0 {
        let head = seq![s[0]];
        let rest = s.skip(1);
        lemma_parts_are_filters(rest);
        assert(s =~= head + rest);
        Seq::filter_distributes_over_add(head, rest, is_result);
        Seq::filter_distributes_over_add(head, rest, is_other);
        assert(head.drop_last() =~= Seq::<MessageView>::empty());
        reveal_with_fuel(Seq::filter, 3);
        assert(head.filter(is_result) =~= if s[0] is ToolResult {
            head
        } else {
            Seq::empty()
        });
        assert(head.filter(is_other) =~= if s[0] is ToolResult {
            Seq::empty()
        } else {
            head
        });
        assert(Seq::<MessageView>::empty() + results(rest) =~= results(rest));
        assert(Seq::<MessageView>::empty() + others(rest) =~= others(rest));
    }
}

/// The repair of the order loses no message and adds none: the results stay in their order, and so
/// does everything else. The stand-ins add nothing but results.
pub proof fn lemma_repairs_keep_messages(s: Seq<MessageView>, now: u64)
    ensures
        adjacent(s).filter(|m: MessageView| m is ToolResult) == s.filter(
            |m: MessageView| m is ToolResult,
        ),
        adjacent(s).filter(|m: MessageView| !(m is ToolResult)) == s.filter(
            |m: MessageView| !(m is ToolResult),
        ),
        filled(s, now).filter(|m: MessageView| !(m is ToolResult)) == s.filter(
            |m: MessageView| !(m is ToolResult),
        ),
{
    lemma_adjacency_repairs(s);
    lemma_backfill_answers(s, now);
    lemma_parts_are_filters(s);
    lemma_parts_are_filters(adjacent(s));
    lemma_parts_are_filters(filled(s, now));
}

/// A message that stands in for the result of a call of the assistant message before it: it has the
/// id and the name of that call, and says in words and in its details that the result is missing.
pub open spec fn stands_in(r: Seq<MessageView>, j: int, now: u64) -> bool {
    r[j] is ToolResult && {
        let t = r[j]->ToolResult_0;
        &&& t.is_error && !t.terminate && t.timestamp == now
        &&& t.content == seq![
            BlockView::Text(
                "Tool result missing from history (the turn was interrupted or the result was dropped by a context transform); synthesized so the request stays valid."@,
            ),
        ]
        &&& t.details == Some(
            JsonView::Object(map!["errorKind"@ => JsonView::Text("missing_result"@)]),
        )
        &&& exists|i: int, k: int|
            #![trigger r[i], r[i]->Assistant_0.content[k]]
            0 <= i < j && r[i] is Assistant && (forall|m: int|
                i < m < j ==> (#[trigger] r[m]) is ToolResult) && 0 <= k
                < r[i]->Assistant_0.content.len() && r[i]->Assistant_0.content[k] is ToolCall
                && r[i]->Assistant_0.content[k]->ToolCall_id == t.tool_call_id
                && r[i]->Assistant_0.content[k]->ToolCall_name == t.tool_name
    }
}

/// Whether every message of `s` stands in `r`, at the places `from`, in its order.
pub open spec fn stands_at(s: Seq<MessageView>, r: Seq<MessageView>, from: Seq<int>) -> bool {
    &&& from.len() == s.len()
    &&& forall|i: int| 0 <= i < s.len() ==> 0 <= #[trigger] from[i] < r.len() && r[from[i]] == s[i]
    &&& forall|i: int, j: int| 0 <= i < j < from.len() ==> #[trigger] from[i] < #[trigger] from[j]
}

proof fn lemma_unanswered_from(cs: Seq<(Seq<char>, Seq<char>)>, g: Seq<MessageView>, j: int)
    requires
        0 <= j < unanswered(cs, g).len(),
    ensures
        cs.contains(unanswered(cs, g)[j]),
    decreases cs.len(),
{
    let d = unanswered(cs.drop_last(), g);
    if !answered(g, cs.last().0) && j == d.len() {
        assert(cs[cs.len() - 1] == unanswered(cs, g)[j]);
    } else {
        lemma_unanswered_from(cs.drop_last(), g, j);
        let c = choose|c: int| 0 <= c < cs.drop_last().len() && cs.drop_last()[c] == d[j];
        assert(cs[c] == unanswered(cs, g)[j]);
    }
}

proof fn lemma_filled_from(s: Seq<MessageView>, now: u64) -> (from: Seq<int>)
    ensures
        stands_at(s, filled(s, now), from),
        forall|j: int|
            0 <= j < filled(s, now).len() && !(#[trigger] from.contains(j)) ==> stands_in(
                filled(s, now),
                j,
                now,
            ),
    decreases s.len(),
{
    let r = filled(s, now);
    if s.len() == 0 {
        Seq::empty()
    } else {
        let rest = s.skip(1);
        let g = group_of(rest);
        let ms = unanswered(calls(s[0]), g);
        let st = stubs(ms, now);
        let f = filled(rest, now);
        let before = lemma_filled_from(rest, now);
        let off = 1 + st.len() as int;
        let from = Seq::new(
            s.len(),
            |i: int|
                if i == 0 {
                    0
                } else {
                    before[i - 1] + off
                },
        );
        assert(r == seq![s[0]] + st + f);
        assert forall|i: int| 0 <= i < s.len() implies 0 <= #[trigger] from[i] < r.len()
            && r[from[i]] == s[i] by {
            if i > 0 {
                assert(rest[i - 1] == s[i]);
                assert(r[before[i - 1] + off] == f[before[i - 1]]);
            }
        }
        lemma_stubs_len(ms, now);
        lemma_stubs_are_results(ms, now);
        assert forall|j: int| 0 <= j < r.len() && !(#[trigger] from.contains(j)) implies stands_in(
            r,
            j,
            now,
        ) by {
            assert(from[0] == 0);
            if j < off {
                assert(r[j] == st[j - 1]);
                let q = ms.len() - j;
                assert(st[j - 1] == stub(ms[q], now));
                lemma_unanswered_from(calls(s[0]), g, q);
                let c = choose|c: int| 0 <= c < calls(s[0]).len() && calls(s[0])[c] == ms[q];
                lemma_call_is_block(s[0]->Assistant_0.content, c);
                let k = choose|k: int|
                    0 <= k < s[0]->Assistant_0.content.len() && (
                    #[trigger] s[0]->Assistant_0.content[k]) is ToolCall && calls(s[0])[c] == (
                        s[0]->Assistant_0.content[k]->ToolCall_id,
                        s[0]->Assistant_0.content[k]->ToolCall_name,
                    );
                assert(r[0] == s[0]);
                assert forall|m: int| 0 < m < j implies (#[trigger] r[m]) is ToolResult by {
                    assert(r[m] == st[m - 1]);
                }
                assert(r[0]->Assistant_0.content[k] is ToolCall);
            } else {
                let p = j - off;
                assert(r[j] == f[p]);
                if before.contains(p) {
                    let i = choose|i: int| 0 <= i < before.len() && before[i] == p;
                    assert(from[i + 1] == j);
                }
                assert(stands_in(f, p, now));
                let (i, k) = choose|i: int, k: int|
                    #![trigger f[i], f[i]->Assistant_0.content[k]]
                    0 <= i < p && f[i] is Assistant && (forall|m: int|
                        i < m < p ==> (#[trigger] f[m]) is ToolResult) && 0 <= k
                        < f[i]->Assistant_0.content.len() && f[i]->Assistant_0.content[k] is ToolCall
                        && f[i]->Assistant_0.content[k]->ToolCall_id
                        == f[p]->ToolResult_0.tool_call_id
                        && f[i]->Assistant_0.content[k]->ToolCall_name
                        == f[p]->ToolResult_0.tool_name;
                assert(r[i + off] == f[i]);
                assert forall|m: int| i + off < m < j implies (#[trigger] r[m]) is ToolResult by {
                    assert(r[m] == f[m - off]);
                }
                assert(r[i + off]->Assistant_0.content[k] is ToolCall);
            }
        }
        from
    }
}

/// Filling in leaves every message where it was in the order, and what it adds are stand-ins: each
/// for a call of the assistant message that it follows.
pub proof fn lemma_backfill_adds_stand_ins(s: Seq<MessageView>, now: u64)
    ensures
        exists|from: Seq<int>| #[trigger]
            stands_at(s, filled(s, now), from) && forall|j: int|
                0 <= j < filled(s, now).len() && !(#[trigger] from.contains(j)) ==> stands_in(
                    filled(s, now),
                    j,
                    now,
                ),
{
    let from = lemma_filled_from(s, now);
    assert(stands_at(s, filled(s, now), from));
}

proof fn lemma_all_answered_raw(s: Seq<MessageView>)
    requires
        forall|i: int, k: int|
            #![trigger s[i]->Assistant_0.content[k]]
            0 <= i < s.len() && s[i] is Assistant && 0 <= k < s[i]->Assistant_0.content.len()
                && s[i]->Assistant_0.content[k] is ToolCall ==> exists|j: int|
                i < j < s.len() && (#[trigger] s[j]) is ToolResult
                    && s[j]->ToolResult_0.tool_call_id == s[i]->Assistant_0.content[k]->ToolCall_id
                    && forall|m: int| i < m <= j ==> !((#[trigger] s[m]) is Assistant),
    ensures
        all_answered(s),
    decreases s.len(),
{
    if s.len() > 0 {
        let rest = s.skip(1);
        let g = group_of(rest);
        let cs = calls(s[0]);
        assert forall|c: int| 0 <= c < cs.len() implies answered(g, #[trigger] cs[c].0) by {
            let b = s[0]->Assistant_0.content;
            lemma_call_is_block(b, c);
            let k = choose|k: int|
                0 <= k < b.len() && (#[trigger] b[k]) is ToolCall && cs[c] == (
                    b[k]->ToolCall_id,
                    b[k]->ToolCall_name,
                );
            assert(s[0]->Assistant_0.content[k] is ToolCall);
            let j = choose|j: int|
                0 < j < s.len() && (#[trigger] s[j]) is ToolResult
                    && s[j]->ToolResult_0.tool_call_id == b[k]->ToolCall_id && forall|m: int|
                    0 < m <= j ==> !((#[trigger] s[m]) is Assistant);
            lemma_in_group(s, 0, j);
            lemma_group_len(rest);
            assert(g[j - 1] == s[j]);
            assert(is_result_of(g[j - 1], cs[c].0));
        }
        lemma_unanswered_empty(cs, g);
        assert forall|i: int, k: int|
            #![trigger rest[i]->Assistant_0.content[k]]
            0 <= i < rest.len() && rest[i] is Assistant && 0 <= k
                < rest[i]->Assistant_0.content.len()
                && rest[i]->Assistant_0.content[k] is ToolCall implies exists|j: int|
            i < j < rest.len() && (#[trigger] rest[j]) is ToolResult
                && rest[j]->ToolResult_0.tool_call_id
                == rest[i]->Assistant_0.content[k]->ToolCall_id && forall|m: int|
                i < m <= j ==> !((#[trigger] rest[m]) is Assistant) by {
            assert(s[i + 1]->Assistant_0.content[k] == rest[i]->Assistant_0.content[k]);
            let j = choose|j: int|
                i + 1 < j < s.len() && (#[trigger] s[j]) is ToolResult
                    && s[j]->ToolResult_0.tool_call_id
                    == s[i + 1]->Assistant_0.content[k]->ToolCall_id && forall|m: int|
                    i + 1 < m <= j ==> !((#[trigger] s[m]) is Assistant);
            assert(rest[j - 1] == s[j]);
            assert forall|m: int| i < m <= j - 1 implies !((#[trigger] rest[m]) is Assistant) by {
                assert(rest[m] == s[m + 1]);
            }
        }
        lemma_all_answered_raw(rest);
    }
}

/// A conversation in which every block that calls a tool has a result with its id before the next
/// assistant message gets no stand-in.
pub proof fn lemma_answered_conversation_stays(s: Seq<MessageView>, now: u64)
    requires
        forall|i: int, k: int|
            #![trigger s[i]->Assistant_0.content[k]]
            0 <= i < s.len() && s[i] is Assistant && 0 <= k < s[i]->Assistant_0.content.len()
                && s[i]->Assistant_0.content[k] is ToolCall ==> exists|j: int|
                i < j < s.len() && (#[trigger] s[j]) is ToolResult
                    && s[j]->ToolResult_0.tool_call_id == s[i]->Assistant_0.content[k]->ToolCall_id
                    && forall|m: int| i < m <= j ==> !((#[trigger] s[m]) is Assistant),
    ensures
        filled(s, now) == s,
{
    lemma_all_answered_raw(s);
    lemma_backfill_keeps(s, now);
}

/// What a reminder looks like: the envelope with the kind in its first line, and the whole body
/// between.
pub proof fn lemma_wrapped(kind: Seq<char>, body: Seq<char>)
    ensures
        wrapped(kind, body) == "<system-reminder> kind="@ + kind + "\n"@ + body
            + "\n</system-reminder>"@,
{
}

/// The kind of a text that holds a reminder is the name behind its first `kind=`: up to white space,
/// a `>`, or the end. A text without a reminder, without `kind=`, or with no name there has none.
pub proof fn lemma_kind_of(t: Seq<char>, k: int, e: int)
    ensures
        !contains(t, "<system-reminder>"@) ==> kind_of(t) is None,
        !contains(t, "kind="@) ==> kind_of(t) is None,
        contains(t, "<system-reminder>"@) && occurs_at(t, "kind="@, k) && (forall|j: int|
            0 <= j < k ==> !occurs_at(t, "kind="@, j)) && k + 5 <= e <= t.len() && (forall|j: int|
            k + 5 <= j < e ==> !is_space(#[trigger] t[j]) && t[j] != '>') && (e < t.len() ==> is_space(
            t[e],
        ) || t[e] == '>') ==> kind_of(t) == if e == k + 5 {
            None
        } else {
            Some(t.subrange(k + 5, e))
        },
{
    reveal_strlit("kind=");
    lemma_find(t, "kind="@);
    if contains(t, "<system-reminder>"@) && occurs_at(t, "kind="@, k) && (forall|j: int|
        0 <= j < k ==> !occurs_at(t, "kind="@, j)) && k + 5 <= e <= t.len() && (forall|j: int|
        k + 5 <= j < e ==> !is_space(#[trigger] t[j]) && t[j] != '>') && (e < t.len() ==> is_space(
        t[e],
    ) || t[e] == '>') {
        lemma_find_is(t, "kind="@, k);
        let rest = t.skip(k + 5);
        let n = e - k - 5;
        assert forall|j: int| 0 <= j < n implies !ends_kind()(#[trigger] rest[j]) by {
            assert(rest[j] == t[j + k + 5]);
        }
        if n < rest.len() {
            assert(rest[n] == t[e]);
        }
        lemma_find_where_is(rest, ends_kind(), n);
        let name = rest.take(n);
        assert(name =~= t.subrange(k + 5, e));
        if n > 0 {
            assert(name[0] == t[k + 5]);
            assert(name.last() == t[e - 1]);
        }
        lemma_trim_fixed(name);
    }
}

/// Which messages are pins: those of the user whose text, or whose first block, holds a reminder,
/// and no others.
pub proof fn lemma_pin_kind(m: MessageView, t: Seq<char>, blocks: Seq<BlockView>, at: u64)
    ensures
        pin_kind(MessageView::User { content: UserContentView::Text(t), timestamp: at }) == kind_of(t),
        blocks.len() > 0 && blocks[0] == BlockView::Text(t) ==> pin_kind(
            MessageView::User { content: UserContentView::Blocks(blocks), timestamp: at },
        ) == kind_of(t),
        blocks.len() == 0 || blocks[0] is ToolCall ==> pin_kind(
            MessageView::User { content: UserContentView::Blocks(blocks), timestamp: at },
        ) is None,
        m is Assistant || m is ToolResult ==> pin_kind(m) is None,
{
}

/// Dropping the pins of a kind drops each of them, and keeps every other message in its place among
/// the others.
pub proof fn lemma_without_kind(
    a: Seq<MessageView>,
    b: Seq<MessageView>,
    m: MessageView,
    kind: Seq<char>,
)
    ensures
        without_kind(a + b, kind) == without_kind(a, kind) + without_kind(b, kind),
        pin_kind(m) == Some(kind) ==> without_kind(seq![m], kind).len() == 0,
        pin_kind(m) != Some(kind) ==> without_kind(seq![m], kind) == seq![m],
    decreases b.len(),
{
    let none = Seq::<MessageView>::empty();
    assert(seq![m].drop_last() =~= none);
    assert(without_kind(none, kind) =~= none);
    if pin_kind(m) != Some(kind) {
        assert(without_kind(seq![m], kind) =~= seq![m]);
    }
    if b.len() == 0 {
        assert(a + b =~= a);
        assert(without_kind(a, kind) + without_kind(b, kind) =~= without_kind(a, kind));
    } else {
        assert((a + b).drop_last() =~= a + b.drop_last());
        lemma_without_kind(a, b.drop_last(), m, kind);
        assert(without_kind(a + b, kind) =~= without_kind(a, kind) + without_kind(b, kind));
    }
}

proof fn lemma_last_pin_is(s: Seq<MessageView>, kind: Seq<char>, i: int)
    requires
        0 <= i < s.len(),
        pin_kind(s[i]) == Some(kind),
        forall|j: int| i < j < s.len() ==> pin_kind(#[trigger] s[j]) != Some(kind),
    ensures
        last_pin(s, kind) == Some(s[i]),
    decreases s.len(),
{
    if i < s.len() - 1 {
        let r = s.drop_last();
        assert forall|j: int| i < j < r.len() implies pin_kind(#[trigger] r[j]) != Some(kind) by {
            assert(r[j] == s[j]);
        }
        assert(pin_kind(s[s.len() - 1]) != Some(kind));
        lemma_last_pin_is(r, kind, i);
    }
}

proof fn lemma_last_pin_from(s: Seq<MessageView>, kind: Seq<char>)
    requires
        last_pin(s, kind) is Some,
    ensures
        s.contains(last_pin(s, kind)->0),
    decreases s.len(),
{
    if pin_kind(s.last()) == Some(kind) {
        assert(s[s.len() - 1] == s.last());
    } else {
        lemma_last_pin_from(s.drop_last(), kind);
        let m = last_pin(s, kind)->0;
        let i = choose|i: int| 0 <= i < s.drop_last().len() && s.drop_last()[i] == m;
        assert(s[i] == m);
    }
}

proof fn lemma_no_pins(s: Seq<MessageView>, kind: Seq<char>)
    requires
        forall|j: int| 0 <= j < s.len() ==> pin_kind(#[trigger] s[j]) != Some(kind),
    ensures
        pins(s, kind) == 0,
    decreases s.len(),
{
    if s.len() > 0 {
        let r = s.drop_last();
        assert forall|j: int| 0 <= j < r.len() implies pin_kind(#[trigger] r[j]) != Some(kind) by {
            assert(r[j] == s[j]);
        }
        assert(pin_kind(s[s.len() - 1]) != Some(kind));
        lemma_no_pins(r, kind);
    }
}

/// What was put back, with the messages that the rewrite left around it.
spec fn put_back(
    before: Seq<MessageView>,
    after: Seq<MessageView>,
    kinds: Seq<Seq<char>>,
    mid: Seq<MessageView>,
) -> bool {
    &&& preserved(before, after, kinds) == after.drop_last() + mid + seq![after.last()]
    &&& forall|j: int|
        0 <= j < mid.len() ==> before.contains(#[trigger] mid[j]) && pin_kind(mid[j]) is Some
            && kinds.contains(pin_kind(mid[j])->0)
}

proof fn lemma_put_back(
    before: Seq<MessageView>,
    after: Seq<MessageView>,
    kinds: Seq<Seq<char>>,
) -> (mid: Seq<MessageView>)
    requires
        after.len() > 0,
    ensures
        put_back(before, after, kinds, mid),
    decreases kinds.len(),
{
    if kinds.len() == 0 {
        let mid = Seq::<MessageView>::empty();
        assert(after =~= after.drop_last() + mid + seq![after.last()]);
        mid
    } else {
        let fewer = kinds.drop_last();
        let mid = lemma_put_back(before, after, fewer);
        let s = preserved(before, after, fewer);
        let kind = kinds.last();
        assert(kinds[kinds.len() - 1] == kind);
        assert forall|k: Seq<char>| fewer.contains(k) implies #[trigger] kinds.contains(k) by {
            let i = choose|i: int| 0 <= i < fewer.len() && fewer[i] == k;
            assert(kinds[i] == k);
        }
        if last_pin(before, kind) is Some && pins(s, kind) == 0 {
            let m = last_pin(before, kind)->0;
            lemma_last_pin(before, kind);
            lemma_last_pin_from(before, kind);
            let all = mid.push(m);
            assert(s.insert(s.len() - 1, m) =~= after.drop_last() + all + seq![after.last()]);
            assert forall|j: int| 0 <= j < all.len() implies before.contains(#[trigger] all[j])
                && pin_kind(all[j]) is Some && kinds.contains(pin_kind(all[j])->0) by {
                if j < mid.len() {
                    assert(all[j] == mid[j]);
                    assert(fewer.contains(pin_kind(mid[j])->0));
                }
            }
            all
        } else {
            assert forall|j: int| 0 <= j < mid.len() implies before.contains(#[trigger] mid[j])
                && pin_kind(mid[j]) is Some && kinds.contains(pin_kind(mid[j])->0) by {
                assert(fewer.contains(pin_kind(mid[j])->0));
            }
            mid
        }
    }
}

/// Putting pins back changes nothing of what a rewrite left: its last message stays the last, the
/// others stay in front, in their order, and what comes between are pins of protected kinds that
/// were there before.
pub proof fn lemma_preserve_keeps(before: Seq<MessageView>, after: Seq<MessageView>)
    requires
        after.len() > 0,
    ensures
        ({
            let r = preserved(before, after, protected_kinds());
            &&& r.len() >= after.len()
            &&& r.last() == after.last()
            &&& forall|i: int| 0 <= i < after.len() - 1 ==> (#[trigger] r[i]) == after[i]
            &&& forall|i: int|
                after.len() - 1 <= i < r.len() - 1 ==> before.contains(#[trigger] r[i]) && (pin_kind(
                    r[i],
                ) == Some("stop_gate"@) || pin_kind(r[i]) == Some("verify"@) || pin_kind(r[i])
                    == Some("edit_fail"@) || pin_kind(r[i]) == Some("repeat"@) || pin_kind(r[i])
                    == Some("no_progress"@))
        }),
{
    let mid = lemma_put_back(before, after, protected_kinds());
    let r = preserved(before, after, protected_kinds());
    let n = after.len() - 1;
    assert forall|i: int| n <= i < r.len() - 1 implies before.contains(#[trigger] r[i]) && (pin_kind(
        r[i],
    ) == Some("stop_gate"@) || pin_kind(r[i]) == Some("verify"@) || pin_kind(r[i]) == Some(
        "edit_fail"@,
    ) || pin_kind(r[i]) == Some("repeat"@) || pin_kind(r[i]) == Some("no_progress"@)) by {
        assert(r[i] == mid[i - n]);
    }
}

proof fn lemma_preserved_has(
    before: Seq<MessageView>,
    after: Seq<MessageView>,
    kinds: Seq<Seq<char>>,
    kind: Seq<char>,
    i: int,
)
    requires
        kinds.contains(kind),
        0 <= i < before.len(),
        pin_kind(before[i]) == Some(kind),
        forall|j: int| i < j < before.len() ==> pin_kind(#[trigger] before[j]) != Some(kind),
        pins(after, kind) == 0,
    ensures
        preserved(before, after, kinds).contains(before[i]),
    decreases kinds.len(),
{
    let fewer = kinds.drop_last();
    let s = preserved(before, after, fewer);
    let r = preserved(before, after, kinds);
    lemma_last_pin_is(before, kind, i);
    lemma_last_pin(before, kind);
    lemma_preserved_pins(before, after, fewer, kind);
    if fewer.contains(kind) {
        lemma_preserved_has(before, after, fewer, kind, i);
        let j = choose|j: int| 0 <= j < s.len() && s[j] == before[i];
        if r != s {
            if s.len() == 0 {
                assert(false);
            } else if j < s.len() - 1 {
                assert(r[j] == s[j]);
            } else {
                assert(r[j + 1] == s[j]);
            }
        }
    } else {
        let n = choose|n: int| 0 <= n < kinds.len() && kinds[n] == kind;
        if n < kinds.len() - 1 {
            assert(fewer[n] == kind);
        }
        assert(kinds.last() == kind);
        if s.len() == 0 {
            assert(r[0] == before[i]);
        } else {
            assert(r[s.len() - 1] == before[i]);
        }
    }
}

/// The last pin of each of the five protected kinds is put back where the rewrite left none of its
/// kind: that very message.
pub proof fn lemma_lost_pin_is_back(
    before: Seq<MessageView>,
    after: Seq<MessageView>,
    kind: Seq<char>,
    i: int,
)
    requires
        kind == "stop_gate"@ || kind == "verify"@ || kind == "edit_fail"@ || kind == "repeat"@ || kind
            == "no_progress"@,
        0 <= i < before.len(),
        pin_kind(before[i]) == Some(kind),
        forall|j: int| i < j < before.len() ==> pin_kind(#[trigger] before[j]) != Some(kind),
        forall|j: int| 0 <= j < after.len() ==> pin_kind(#[trigger] after[j]) != Some(kind),
    ensures
        preserved(before, after, protected_kinds()).contains(before[i]),
{
    let kinds = protected_kinds();
    assert(kinds[0] == "stop_gate"@ && kinds[1] == "verify"@ && kinds[2] == "edit_fail"@ && kinds[3]
        == "repeat"@ && kinds[4] == "no_progress"@);
    assert(kinds.contains(kind));
    lemma_no_pins(after, kind);
    lemma_preserved_has(before, after, kinds, kind, i);
}

} // verus!
