//! The transcript: its entries, how it is replayed from a session log, and how
//! it follows the agent's events.

use crate::agent::AgentEvent;
use crate::agent;
use crate::assoc;
use crate::session::{
    ContentBlock, ContextSource, Message, MessageSource, Session, SessionEntry, SessionEvent,
    TokenUsage, TurnEndReason,
};
use crate::session;
use crate::text;
use crate::traj::ToolBlock;
use crate::usage::{TurnUsage, UsageView};
use crate::usage;
use std::collections::HashSet;
use vstd::prelude::*;

verus! {

broadcast use vstd::std_specs::hash::group_hash_axioms;

// ---------------------------------------------------------------------------
// entries
// ---------------------------------------------------------------------------

/// What was attached to a message.
#[derive(Clone, Debug)]
pub enum ChatAttachment {
    FileCard { name: String, bytes: u64 },
    /// An image, with the path of its bytes where that is known.
    ImageTile { path: Option<String> },
}

/// A part of an entry.
#[derive(Clone)]
pub enum MsgBlock {
    Text(String),
    Reasoning { text: String, open: bool },
    Tool(ToolBlock),
    Attachment(ChatAttachment),
}

/// Who an entry belongs to.
#[derive(Clone, Copy, Debug, PartialEq, Eq, Structural)]
pub enum Role {
    User,
    Assistant,
    Error,
    /// A mark between messages.
    Notice,
    /// Context that was put in.
    Context,
}

/// What is shown of context that was put in.
#[derive(Clone, Debug)]
pub struct ContextInfo {
    pub title: String,
    pub label: Option<String>,
    pub summary: Option<String>,
}

/// An entry of the transcript.
#[derive(Clone)]
pub struct ChatEntry {
    pub role: Role,
    pub blocks: Vec<MsgBlock>,
    pub done: bool,
    /// How long the turn took, in nanoseconds.
    pub elapsed_ns: Option<u64>,
    pub usage: Option<TurnUsage>,
    pub ended_at_ms: Option<u64>,
    /// The turn; 0 before the first.
    pub turn: u64,
    pub context: Option<ContextInfo>,
    pub open: bool,
    pub step_duration_ms: Option<u64>,
    pub step: Option<u64>,
}

/// The contents of a tool call.
pub struct ToolView {
    pub id: Seq<char>,
    pub name: Seq<char>,
    pub arguments: Seq<char>,
    pub result: Option<Seq<char>>,
    pub error: bool,
    pub open: bool,
    pub expanded: bool,
    pub collapsed_groups: Seq<usize>,
    pub duration_ms: Option<u64>,
}

impl DeepView for ToolBlock {
    type V = ToolView;

    open spec fn deep_view(&self) -> ToolView {
        ToolView {
            id: self.id@,
            name: self.name@,
            arguments: self.arguments@,
            result: self.result.deep_view(),
            error: self.error,
            open: self.open,
            expanded: self.expanded,
            collapsed_groups: self.collapsed_groups@,
            duration_ms: self.duration_ms,
        }
    }
}

/// The contents of a part.
pub enum BlockView {
    Text(Seq<char>),
    Reasoning { text: Seq<char>, open: bool },
    Tool(ToolView),
    FileCard { name: Seq<char>, bytes: u64 },
    ImageTile { path: Option<Seq<char>> },
}

impl DeepView for MsgBlock {
    type V = BlockView;

    open spec fn deep_view(&self) -> BlockView {
        match self {
            MsgBlock::Text(s) => BlockView::Text(s@),
            MsgBlock::Reasoning { text, open } => BlockView::Reasoning { text: text@, open: *open },
            MsgBlock::Tool(t) => BlockView::Tool(t.deep_view()),
            MsgBlock::Attachment(ChatAttachment::FileCard { name, bytes }) => BlockView::FileCard {
                name: name@,
                bytes: *bytes,
            },
            MsgBlock::Attachment(ChatAttachment::ImageTile { path }) => BlockView::ImageTile {
                path: path.deep_view(),
            },
        }
    }
}

/// The contents of the display of context.
pub struct ContextView {
    pub title: Seq<char>,
    pub label: Option<Seq<char>>,
    pub summary: Option<Seq<char>>,
}

impl DeepView for ContextInfo {
    type V = ContextView;

    open spec fn deep_view(&self) -> ContextView {
        ContextView {
            title: self.title@,
            label: self.label.deep_view(),
            summary: self.summary.deep_view(),
        }
    }
}

/// The contents of an entry.
pub struct EntryView {
    pub role: Role,
    pub blocks: Seq<BlockView>,
    pub done: bool,
    pub elapsed_ns: Option<u64>,
    pub usage: Option<UsageView>,
    pub ended_at_ms: Option<u64>,
    pub turn: u64,
    pub context: Option<ContextView>,
    pub open: bool,
    pub step_duration_ms: Option<u64>,
    pub step: Option<u64>,
}

impl DeepView for ChatEntry {
    type V = EntryView;

    open spec fn deep_view(&self) -> EntryView {
        EntryView {
            role: self.role,
            blocks: self.blocks.deep_view(),
            done: self.done,
            elapsed_ns: self.elapsed_ns,
            usage: self.usage.deep_view(),
            ended_at_ms: self.ended_at_ms,
            turn: self.turn,
            context: self.context.deep_view(),
            open: self.open,
            step_duration_ms: self.step_duration_ms,
            step: self.step,
        }
    }
}

/// A bare entry with the given parts.
pub open spec fn bare_entry(role: Role, blocks: Seq<BlockView>, done: bool, turn: u64) -> EntryView {
    EntryView {
        role,
        blocks,
        done,
        elapsed_ns: None,
        usage: None,
        ended_at_ms: None,
        turn,
        context: None,
        open: false,
        step_duration_ms: None,
        step: None,
    }
}

fn make_entry(role: Role, blocks: Vec<MsgBlock>, done: bool, turn: u64) -> (r: ChatEntry)
    ensures
        r.deep_view() == bare_entry(role, blocks.deep_view(), done, turn),
{
    ChatEntry {
        role,
        blocks,
        done,
        elapsed_ns: None,
        usage: None,
        ended_at_ms: None,
        turn,
        context: None,
        open: false,
        step_duration_ms: None,
        step: None,
    }
}

fn one_text(s: String) -> (r: Vec<MsgBlock>)
    ensures
        r.deep_view() == seq![BlockView::Text(s@)],
{
    let mut r: Vec<MsgBlock> = Vec::new();
    r.push(MsgBlock::Text(s));
    assert(r.deep_view() =~= seq![BlockView::Text(s@)]);
    r
}

/// A tool call that has just been made.
pub open spec fn fresh_tool(id: Seq<char>, name: Seq<char>, arguments: Seq<char>) -> ToolView {
    ToolView {
        id,
        name,
        arguments,
        result: None,
        error: false,
        open: false,
        expanded: false,
        collapsed_groups: Seq::empty(),
        duration_ms: None,
    }
}

fn make_tool(id: &String, name: &String, arguments: &String) -> (r: ToolBlock)
    ensures
        r.deep_view() == fresh_tool(id@, name@, arguments@),
{
    ToolBlock {
        id: id.clone(),
        name: name.clone(),
        arguments: arguments.clone(),
        result: None,
        error: false,
        open: false,
        expanded: false,
        collapsed_groups: Vec::new(),
        duration_ms: None,
    }
}

// ---------------------------------------------------------------------------
// context
// ---------------------------------------------------------------------------

/// A text that is more than blanks.
pub open spec fn nonblank(s: Seq<char>) -> Option<Seq<char>> {
    if text::trimmed(s).len() == 0 {
        None
    } else {
        Some(s)
    }
}

/// A text that is more than blanks.
pub fn non_empty(s: String) -> (r: Option<String>)
    ensures
        r.deep_view() == nonblank(s@),
{
    if text::is_blank(s.as_str()) {
        None
    } else {
        Some(s)
    }
}

/// `a`, or `b` where there is none.
pub open spec fn or_else(a: Option<Seq<char>>, b: Seq<char>) -> Option<Seq<char>> {
    match a {
        Some(s) => Some(s),
        None => Some(b),
    }
}

/// A given text that is not empty.
pub open spec fn given_text(s: Option<Seq<char>>) -> Option<Seq<char>> {
    match s {
        Some(s) => if s.len() > 0 {
            Some(s)
        } else {
            None
        },
        None => None,
    }
}

/// Who context was put in by: the labels of what it refers to, the paths it is
/// about, the plugin or the name; else its kind.
pub open spec fn context_label(
    kind: Seq<char>,
    plugin: Option<Seq<char>>,
    changes: Seq<Seq<char>>,
    labels: Seq<Seq<char>>,
    name: Option<Seq<char>>,
) -> Option<Seq<char>> {
    if kind == "session-reference"@ {
        or_else(nonblank(text::joined(labels, ", "@)), kind)
    } else if kind == "file-reference"@ {
        nonblank(text::joined(labels, ", "@))
    } else if kind == "agent-instructions"@ {
        or_else(nonblank(text::joined(changes, ", "@)), kind)
    } else if kind == "plugin"@ {
        or_else(given_text(plugin), kind)
    } else if kind == "skill-invocation"@ {
        or_else(given_text(name), kind)
    } else {
        Some(kind)
    }
}

/// The summary of context: one line of at most 120 characters, where it is
/// more than blanks.
pub open spec fn context_summary(summary: Option<Seq<char>>) -> Option<Seq<char>> {
    match summary {
        Some(s) => if text::trimmed(s).len() == 0 {
            None
        } else {
            Some(agent::bounded_line(s))
        },
        None => None,
    }
}

/// What is shown of context.
pub open spec fn context_view(c: ContextSource) -> ContextView {
    ContextView {
        title: if c.kind@ == "session-reference"@ {
            "跨会话召回"@
        } else {
            "上下文注入"@
        },
        label: context_label(
            c.kind@,
            c.plugin.deep_view(),
            c.changes_paths.deep_view(),
            c.reference_labels.deep_view(),
            c.name.deep_view(),
        ),
        summary: context_summary(c.summary.deep_view()),
    }
}

fn filled(s: &Option<String>) -> (r: Option<String>)
    ensures
        r.deep_view() == given_text(s.deep_view()),
{
    match s {
        Some(s) => {
            if s.as_str().is_empty() {
                None
            } else {
                Some(s.clone())
            }
        },
        None => None,
    }
}

fn otherwise(a: Option<String>, b: &String) -> (r: Option<String>)
    ensures
        r.deep_view() == or_else(a.deep_view(), b@),
{
    match a {
        Some(s) => Some(s),
        None => Some(b.clone()),
    }
}

/// What is shown of context: a title by its kind, who put it in, and a summary.
pub fn context_info(c: &ContextSource) -> (r: ContextInfo)
    ensures
        r.deep_view() == context_view(*c),
{
    let kind: &str = c.kind.as_str();
    let recall: bool = text::same(kind, "session-reference");
    let label: Option<String> = if recall {
        otherwise(non_empty(text::join(&c.reference_labels, ", ")), &c.kind)
    } else if text::same(kind, "file-reference") {
        non_empty(text::join(&c.reference_labels, ", "))
    } else if text::same(kind, "agent-instructions") {
        otherwise(non_empty(text::join(&c.changes_paths, ", ")), &c.kind)
    } else if text::same(kind, "plugin") {
        otherwise(filled(&c.plugin), &c.kind)
    } else if text::same(kind, "skill-invocation") {
        otherwise(filled(&c.name), &c.kind)
    } else {
        Some(c.kind.clone())
    };
    let title: String = if recall { "跨会话召回".to_owned() } else { "上下文注入".to_owned() };
    let summary: Option<String> = match &c.summary {
        Some(s) => {
            if text::is_blank(s.as_str()) {
                None
            } else {
                Some(agent::bound_summary(s.as_str()))
            }
        },
        None => None,
    };
    ContextInfo { title, label, summary }
}

// ---------------------------------------------------------------------------
// tool calls in an entry
// ---------------------------------------------------------------------------

/// Whether a part is the tool call with an id.
pub open spec fn is_call(b: BlockView, id: Seq<char>) -> bool {
    b matches BlockView::Tool(t) && t.id == id
}

/// A tool call with its result.
pub open spec fn answered(b: BlockView, result: Seq<char>, error: bool) -> BlockView {
    match b {
        BlockView::Tool(t) => BlockView::Tool(ToolView { result: Some(result), error, ..t }),
        _ => b,
    }
}

/// The parts with a result at the last call with the id.
pub open spec fn with_result(
    blocks: Seq<BlockView>,
    id: Seq<char>,
    result: Seq<char>,
    error: bool,
) -> Seq<BlockView>
    decreases blocks.len(),
{
    if blocks.len() == 0 {
        blocks
    } else if is_call(blocks.last(), id) {
        blocks.drop_last().push(answered(blocks.last(), result, error))
    } else {
        with_result(blocks.drop_last(), id, result, error).push(blocks.last())
    }
}

/// A tool call with its duration, where it is the one with the id.
pub open spec fn timed(b: BlockView, id: Seq<char>, ms: Option<u64>) -> BlockView {
    match b {
        BlockView::Tool(t) => if t.id == id {
            BlockView::Tool(ToolView { duration_ms: ms, ..t })
        } else {
            b
        },
        _ => b,
    }
}

/// The parts with a duration at every call with the id.
pub open spec fn with_duration(blocks: Seq<BlockView>, id: Seq<char>, ms: Option<u64>) -> Seq<
    BlockView,
> {
    blocks.map_values(|b: BlockView| timed(b, id, ms))
}

/// Changing the last entry only.
pub open spec fn on_last(entries: Seq<EntryView>, blocks: Seq<BlockView>) -> Seq<EntryView> {
    entries.drop_last().push(EntryView { blocks, ..entries.last() })
}

/// The entries with a result at the last call with the id in the last entry.
pub open spec fn result_attached(
    entries: Seq<EntryView>,
    id: Seq<char>,
    result: Seq<char>,
    error: bool,
) -> Seq<EntryView> {
    if entries.len() == 0 {
        entries
    } else {
        on_last(entries, with_result(entries.last().blocks, id, result, error))
    }
}

/// The entries with a duration at every call with the id in the last entry.
pub open spec fn duration_attached(entries: Seq<EntryView>, id: Seq<char>, ms: Option<u64>) -> Seq<
    EntryView,
> {
    if entries.len() == 0 {
        entries
    } else {
        on_last(entries, with_duration(entries.last().blocks, id, ms))
    }
}

proof fn lemma_with_result_tail(
    blocks: Seq<BlockView>,
    id: Seq<char>,
    result: Seq<char>,
    error: bool,
    n: int,
)
    requires
        0 <= n <= blocks.len(),
        forall|k: int| n <= k < blocks.len() ==> !is_call(#[trigger] blocks[k], id),
    ensures
        with_result(blocks, id, result, error) == with_result(blocks.take(n), id, result, error)
            + blocks.skip(n),
    decreases blocks.len() - n,
{
    if n < blocks.len() {
        let head = blocks.drop_last();
        assert forall|k: int| n <= k < head.len() implies !is_call(#[trigger] head[k], id) by {
            assert(head[k] == blocks[k]);
        }
        assert(!is_call(blocks[blocks.len() - 1], id));
        lemma_with_result_tail(head, id, result, error, n);
        assert(head.take(n) =~= blocks.take(n));
        assert(with_result(blocks, id, result, error) =~= with_result(
            blocks.take(n),
            id,
            result,
            error,
        ) + blocks.skip(n));
    } else {
        assert(blocks.take(n) =~= blocks);
        assert(with_result(blocks, id, result, error) =~= with_result(blocks, id, result, error)
            + blocks.skip(n));
    }
}

/// Puts the result of a call at the last part that made it.
fn attach_result(blocks: &mut Vec<MsgBlock>, call_id: &str, result: &str, error: bool)
    ensures
        final(blocks).deep_view() == with_result(old(blocks).deep_view(), call_id@, result@, error),
{
    let ghost before = blocks.deep_view();
    let mut n: usize = blocks.len();
    while n > 0
        invariant
            n <= blocks@.len(),
            blocks.deep_view() == before,
            before == old(blocks).deep_view(),
            forall|k: int| n <= k < before.len() ==> !is_call(#[trigger] before[k], call_id@),
        decreases n,
    {
        let i: usize = n - 1;
        assert(before[i as int] == blocks@[i as int].deep_view());
        let hit: bool = match &blocks[i] {
            MsgBlock::Tool(t) => text::same(t.id.as_str(), call_id),
            _ => false,
        };
        assert(hit == is_call(before[i as int], call_id@));
        if hit {
            match &mut blocks[i] {
                MsgBlock::Tool(t) => {
                    t.result = Some(result.to_owned());
                    t.error = error;
                },
                _ => {},
            }
            proof {
                let now = answered(before[i as int], result@, error);
                assert(blocks@[i as int].deep_view() == now);
                lemma_with_result_tail(before, call_id@, result@, error, n as int);
                assert(before.take(n as int).last() == before[i as int]);
                assert(before.take(n as int).drop_last() =~= before.take(i as int));
                assert(blocks.deep_view() =~= before.take(i as int).push(now) + before.skip(
                    n as int,
                ));
            }
            return;
        }
        n = i;
    }
    proof {
        lemma_with_result_tail(before, call_id@, result@, error, 0);
        assert(before.take(0) =~= Seq::<BlockView>::empty());
        assert(before.skip(0) =~= before);
        assert(with_result(before, call_id@, result@, error) =~= before);
    }
}

/// Puts a duration at every part that made the call.
fn attach_duration(blocks: &mut Vec<MsgBlock>, call_id: &str, ms: Option<u64>)
    ensures
        final(blocks).deep_view() == with_duration(old(blocks).deep_view(), call_id@, ms),
{
    let ghost before = blocks.deep_view();
    let mut i: usize = 0;
    while i < blocks.len()
        invariant
            i <= blocks@.len(),
            blocks@.len() == before.len(),
            forall|k: int|
                0 <= k < i ==> (#[trigger] blocks@[k]).deep_view() == timed(
                    before[k],
                    call_id@,
                    ms,
                ),
            forall|k: int|
                i <= k < before.len() ==> (#[trigger] blocks@[k]).deep_view() == before[k],
        decreases blocks@.len() - i,
    {
        match &mut blocks[i] {
            MsgBlock::Tool(t) => {
                if text::same(t.id.as_str(), call_id) {
                    t.duration_ms = ms;
                }
            },
            _ => {},
        }
        i = i + 1;
    }
    assert(blocks.deep_view() =~= with_duration(before, call_id@, ms));
}

// ---------------------------------------------------------------------------
// counts
// ---------------------------------------------------------------------------

/// The counts of a session.
#[derive(Clone, Copy, Debug, PartialEq, Eq, Structural)]
pub struct Counts {
    pub turns: u64,
    pub tools: u64,
    pub steps: u64,
    pub input_tokens: u64,
    pub output_tokens: u64,
    pub cache_read: u64,
    pub cache_write: u64,
}

/// The contents of the counts.
pub struct CountsView {
    pub turns: nat,
    pub tools: nat,
    pub steps: nat,
    pub input_tokens: nat,
    pub output_tokens: nat,
    pub cache_read: nat,
    pub cache_write: nat,
}

impl DeepView for Counts {
    type V = CountsView;

    open spec fn deep_view(&self) -> CountsView {
        CountsView {
            turns: self.turns as nat,
            tools: self.tools as nat,
            steps: self.steps as nat,
            input_tokens: self.input_tokens as nat,
            output_tokens: self.output_tokens as nat,
            cache_read: self.cache_read as nat,
            cache_write: self.cache_write as nat,
        }
    }
}

impl CountsView {
    /// Whether every count can be held.
    pub open spec fn fits(self) -> bool {
        &&& self.turns <= u64::MAX
        &&& self.tools <= u64::MAX
        &&& self.steps <= u64::MAX
        &&& self.input_tokens <= u64::MAX
        &&& self.output_tokens <= u64::MAX
        &&& self.cache_read <= u64::MAX
        &&& self.cache_write <= u64::MAX
    }

    /// Whether no count is larger than that of `other`.
    pub open spec fn within(self, other: CountsView) -> bool {
        &&& self.turns <= other.turns
        &&& self.tools <= other.tools
        &&& self.steps <= other.steps
        &&& self.input_tokens <= other.input_tokens
        &&& self.output_tokens <= other.output_tokens
        &&& self.cache_read <= other.cache_read
        &&& self.cache_write <= other.cache_write
    }

    /// The counts after an answer with these figures.
    pub open spec fn after_answer(self, usage: Option<TokenUsage>, tools: nat) -> CountsView {
        match usage {
            Some(u) => CountsView {
                steps: self.steps + 1,
                tools: self.tools + tools,
                input_tokens: self.input_tokens + u.input_tokens as nat,
                output_tokens: self.output_tokens + u.output_tokens as nat,
                cache_read: self.cache_read + usage::given(u.cache_read_tokens) as nat,
                cache_write: self.cache_write + usage::given(u.cache_write_tokens) as nat,
                turns: self.turns,
            },
            None => CountsView { steps: self.steps + 1, tools: self.tools + tools, ..self },
        }
    }
}

/// No counts.
pub open spec fn no_counts() -> CountsView {
    CountsView {
        turns: 0,
        tools: 0,
        steps: 0,
        input_tokens: 0,
        output_tokens: 0,
        cache_read: 0,
        cache_write: 0,
    }
}

impl Counts {
    fn none() -> (r: Self)
        ensures
            r.deep_view() == no_counts(),
    {
        Counts {
            turns: 0,
            tools: 0,
            steps: 0,
            input_tokens: 0,
            output_tokens: 0,
            cache_read: 0,
            cache_write: 0,
        }
    }

    fn add_answer(&mut self, usage: &Option<TokenUsage>, tools: u64)
        requires
            old(self).deep_view().after_answer(*usage, tools as nat).fits(),
        ensures
            final(self).deep_view() == old(self).deep_view().after_answer(*usage, tools as nat),
    {
        self.steps = self.steps + 1;
        self.tools = self.tools + tools;
        match usage {
            Some(u) => {
                self.input_tokens = self.input_tokens + u.input_tokens;
                self.output_tokens = self.output_tokens + u.output_tokens;
                match u.cache_read_tokens {
                    Some(n) => {
                        self.cache_read = self.cache_read + n;
                    },
                    None => {},
                }
                match u.cache_write_tokens {
                    Some(n) => {
                        self.cache_write = self.cache_write + n;
                    },
                    None => {},
                }
            },
            None => {},
        }
    }
}

/// The figures of one answer.
pub open spec fn step_usage(usage: Option<TokenUsage>) -> Option<UsageView> {
    match usage {
        Some(u) => Some(
            UsageView {
                input_tokens: u.input_tokens as nat,
                output_tokens: u.output_tokens as nat,
                cache_read: usage::count_of(u.cache_read_tokens),
                cache_write: usage::count_of(u.cache_write_tokens),
                reasoning: usage::count_of(u.reasoning_tokens),
                run_ms: 0,
                llm_ms: 0,
                ttft_ms: None,
                route: Seq::empty(),
            },
        ),
        None => None,
    }
}

fn make_step_usage(usage: &Option<TokenUsage>) -> (r: Option<TurnUsage>)
    ensures
        r.deep_view() == step_usage(*usage),
{
    match usage {
        Some(u) => Some(
            TurnUsage {
                input_tokens: u.input_tokens,
                output_tokens: u.output_tokens,
                cache_read: u.cache_read_tokens,
                cache_write: u.cache_write_tokens,
                reasoning: u.reasoning_tokens,
                run_ms: 0,
                llm_ms: 0,
                ttft_ms: None,
                route: String::new(),
            },
        ),
        None => None,
    }
}

// ---------------------------------------------------------------------------
// replay
// ---------------------------------------------------------------------------

/// The parts that an answer shows: texts that are not empty, thoughts and tool
/// calls.
pub open spec fn answer_blocks(content: Seq<ContentBlock>) -> Seq<BlockView>
    decreases content.len(),
{
    if content.len() == 0 {
        Seq::empty()
    } else {
        let head = answer_blocks(content.drop_last());
        match content.last() {
            ContentBlock::Text { text } => if text@.len() > 0 {
                head.push(BlockView::Text(text@))
            } else {
                head
            },
            ContentBlock::Reasoning { text } => head.push(
                BlockView::Reasoning { text: text@, open: false },
            ),
            ContentBlock::ToolCall { id, name, arguments } => head.push(
                BlockView::Tool(fresh_tool(id@, name@, arguments@)),
            ),
            _ => head,
        }
    }
}

/// What a user's message shows as attached.
pub open spec fn attached_blocks(content: Seq<ContentBlock>, root: Option<Seq<char>>) -> Seq<
    BlockView,
>
    decreases content.len(),
{
    if content.len() == 0 {
        Seq::empty()
    } else {
        let head = attached_blocks(content.drop_last(), root);
        match content.last() {
            ContentBlock::File { name, bytes, .. } => head.push(
                BlockView::FileCard { name: name@, bytes },
            ),
            ContentBlock::Image { attachment_id } => head.push(
                BlockView::ImageTile {
                    path: crate::filetype::object_path(root, attachment_id@),
                },
            ),
            _ => head,
        }
    }
}

/// The time from one point to a later one, where both are known and it is more
/// than nothing.
pub open spec fn window_ms(from: Option<u64>, to: Option<u64>) -> Option<u64> {
    match (from, to) {
        (Some(a), Some(b)) => if b > a {
            Some((b - a) as u64)
        } else {
            None
        },
        _ => None,
    }
}

fn window(from: Option<u64>, to: Option<u64>) -> (r: Option<u64>)
    ensures
        r == window_ms(from, to),
{
    match (from, to) {
        (Some(a), Some(b)) => {
            if b > a {
                Some(b - a)
            } else {
                None
            }
        },
        _ => None,
    }
}

/// A transcript under replay.
pub struct ReplayView {
    pub entries: Seq<EntryView>,
    pub turn: u64,
    /// Whether the latest turn has not ended.
    pub unfinished: bool,
    /// When the first step of the open turn started.
    pub anchor: Option<u64>,
    /// When the steps started.
    pub starts: Seq<(assoc::StepKey, u64)>,
    /// When the latest answer came.
    pub last_answer: Option<u64>,
    pub counts: CountsView,
}

/// A replay that has seen nothing.
pub open spec fn no_replay() -> ReplayView {
    ReplayView {
        entries: Seq::empty(),
        turn: 0,
        unfinished: false,
        anchor: None,
        starts: Seq::empty(),
        last_answer: None,
        counts: no_counts(),
    }
}

/// What a user's message adds to a transcript.
pub open spec fn user_entries(m: Message, root: Option<Seq<char>>, turn: u64) -> Seq<EntryView> {
    let s = session::plain_text(m.content@);
    let attached = attached_blocks(m.content@, root);
    if s.len() == 0 && attached.len() == 0 {
        Seq::empty()
    } else {
        match m.source {
            MessageSource::Context(c) => seq![
                EntryView {
                    context: Some(context_view(c)),
                    ..bare_entry(Role::Context, seq![BlockView::Text(s)], true, turn)
                },
            ],
            _ => seq![
                bare_entry(
                    Role::User,
                    if s.len() > 0 {
                        attached.push(BlockView::Text(s))
                    } else {
                        attached
                    },
                    true,
                    turn,
                ),
            ],
        }
    }
}

/// What a system message adds to a transcript.
pub open spec fn system_entries(m: Message, replaces: bool, turn: u64) -> Seq<EntryView> {
    let s = text::joined(session::content_texts(m.content@), "\n"@);
    if s.len() == 0 {
        Seq::empty()
    } else {
        seq![
            EntryView {
                context: Some(
                    ContextView {
                        title: if replaces {
                            "系统提示词更新"@
                        } else {
                            "系统提示词"@
                        },
                        label: None,
                        summary: None,
                    },
                ),
                ..bare_entry(Role::Context, seq![BlockView::Text(s)], true, turn)
            },
        ]
    }
}

/// What a failed turn is shown as.
pub open spec fn failure_text(code: Seq<char>, message: Seq<char>) -> Seq<char> {
    "["@ + code + "] "@ + message
}

/// What an answer adds to a transcript.
pub open spec fn answer_entries(
    s: ReplayView,
    content: Seq<ContentBlock>,
    usage: Option<TokenUsage>,
    step: u64,
    time_ms: Option<u64>,
) -> Seq<EntryView> {
    let blocks = answer_blocks(content);
    if blocks.len() == 0 {
        Seq::empty()
    } else {
        seq![
            EntryView {
                usage: step_usage(usage),
                step: Some(step),
                step_duration_ms: window_ms(assoc::lookup(s.starts, (s.turn, step)), time_ms),
                ..bare_entry(Role::Assistant, blocks, true, s.turn)
            },
        ]
    }
}

/// The entries with what a tool's result adds to the last of them.
pub open spec fn with_tool_result(s: ReplayView, m: Message, time_ms: Option<u64>) -> Seq<
    EntryView,
> {
    if m.content@.len() == 0 {
        s.entries
    } else {
        match m.content@[0] {
            ContentBlock::ToolResult { tool_call_id, content, is_error } => {
                let a = result_attached(
                    s.entries,
                    tool_call_id@,
                    session::result_text(content@),
                    is_error == Some(true),
                );
                if time_ms is Some && s.last_answer is Some {
                    duration_attached(a, tool_call_id@, window_ms(s.last_answer, time_ms))
                } else {
                    a
                }
            },
            _ => s.entries,
        }
    }
}

/// The replay after one more event. `root` is where attachments are kept.
pub open spec fn replay_step(s: ReplayView, root: Option<Seq<char>>, e: SessionEvent) -> ReplayView {
    match e {
        SessionEvent::TurnStart { turn } => ReplayView {
            turn,
            unfinished: true,
            anchor: None,
            counts: CountsView { turns: s.counts.turns + 1, ..s.counts },
            ..s
        },
        SessionEvent::TurnEnd { reason: TurnEndReason::Error(f), .. } => ReplayView {
            unfinished: false,
            entries: s.entries.push(
                bare_entry(
                    Role::Error,
                    seq![BlockView::Text(failure_text(f.code@, f.message@))],
                    true,
                    s.turn,
                ),
            ),
            ..s
        },
        SessionEvent::TurnEnd { .. } => ReplayView { unfinished: false, ..s },
        SessionEvent::AssistantMessage { usage, message, step, time_ms, .. } => {
            let added = answer_entries(s, message.content@, usage, step, time_ms);
            ReplayView {
                entries: s.entries + added,
                last_answer: if added.len() > 0 {
                    time_ms
                } else {
                    s.last_answer
                },
                counts: s.counts.after_answer(usage, agent::calls_in(message.content@).len()),
                ..s
            }
        },
        SessionEvent::ToolCall { .. } => ReplayView {
            counts: CountsView { tools: s.counts.tools + 1, ..s.counts },
            ..s
        },
        SessionEvent::SystemMessage { message, replace, .. } => ReplayView {
            entries: s.entries + system_entries(message, replace is Some, s.turn),
            ..s
        },
        SessionEvent::UserMessage(m) => ReplayView {
            entries: s.entries + user_entries(m, root, s.turn),
            ..s
        },
        SessionEvent::StepStart { turn, step, time_ms: Some(t) } => ReplayView {
            starts: assoc::put(s.starts, (turn, step), t),
            anchor: if s.unfinished && s.anchor is None {
                Some(t)
            } else {
                s.anchor
            },
            ..s
        },
        SessionEvent::ToolResult { message, time_ms, .. } => ReplayView {
            entries: with_tool_result(s, message, time_ms),
            ..s
        },
        SessionEvent::Compaction(_) => ReplayView {
            entries: s.entries.push(bare_entry(Role::Notice, Seq::empty(), true, s.turn)),
            ..s
        },
        _ => s,
    }
}

/// The replay of a log.
pub open spec fn replay(entries: Seq<SessionEntry>, root: Option<Seq<char>>) -> ReplayView
    decreases entries.len(),
{
    if entries.len() == 0 {
        no_replay()
    } else {
        replay_step(replay(entries.drop_last(), root), root, entries.last().event)
    }
}

/// The latest start of a step of a turn.
pub open spec fn latest_start(starts: Seq<(assoc::StepKey, u64)>, turn: u64) -> Option<u64>
    decreases starts.len(),
{
    if starts.len() == 0 {
        None
    } else {
        let head = latest_start(starts.drop_last(), turn);
        if starts.last().0.0 != turn {
            head
        } else {
            match head {
                Some(t) => if t >= starts.last().1 {
                    Some(t)
                } else {
                    Some(starts.last().1)
                },
                None => Some(starts.last().1),
            }
        }
    }
}

struct Replay {
    entries: Vec<ChatEntry>,
    turn: u64,
    unfinished: bool,
    anchor: Option<u64>,
    starts: Vec<(assoc::StepKey, u64)>,
    last_answer: Option<u64>,
    counts: Counts,
}

impl DeepView for Replay {
    type V = ReplayView;

    closed spec fn deep_view(&self) -> ReplayView {
        ReplayView {
            entries: self.entries.deep_view(),
            turn: self.turn,
            unfinished: self.unfinished,
            anchor: self.anchor,
            starts: self.starts@,
            last_answer: self.last_answer,
            counts: self.counts.deep_view(),
        }
    }
}

fn build_answer_blocks(content: &Vec<ContentBlock>) -> (r: (Vec<MsgBlock>, u64))
    requires
        agent::calls_in(content@).len() <= u64::MAX,
    ensures
        r.0.deep_view() == answer_blocks(content@),
        r.1 == agent::calls_in(content@).len(),
{
    let mut r: Vec<MsgBlock> = Vec::new();
    let mut calls: u64 = 0;
    let mut i: usize = 0;
    assert(content@.take(0) =~= Seq::<ContentBlock>::empty());
    assert(r.deep_view() =~= Seq::<BlockView>::empty());
    while i < content.len()
        invariant
            i <= content@.len(),
            r.deep_view() == answer_blocks(content@.take(i as int)),
            calls == agent::calls_in(content@.take(i as int)).len(),
            agent::calls_in(content@).len() <= u64::MAX,
        decreases content@.len() - i,
    {
        let ghost next = content@.take(i + 1);
        let ghost before = r.deep_view();
        assert(next.drop_last() =~= content@.take(i as int));
        proof {
            lemma_calls_grow(content@, i + 1);
        }
        match &content[i] {
            ContentBlock::Text { text } => {
                if !text.as_str().is_empty() {
                    r.push(MsgBlock::Text(text.clone()));
                    assert(r.deep_view() =~= before.push(BlockView::Text(text@)));
                }
            },
            ContentBlock::Reasoning { text } => {
                r.push(MsgBlock::Reasoning { text: text.clone(), open: false });
                assert(r.deep_view() =~= before.push(
                    BlockView::Reasoning { text: text@, open: false },
                ));
            },
            ContentBlock::ToolCall { id, name, arguments } => {
                calls = calls + 1;
                r.push(MsgBlock::Tool(make_tool(id, name, arguments)));
                assert(r.deep_view() =~= before.push(
                    BlockView::Tool(fresh_tool(id@, name@, arguments@)),
                ));
            },
            _ => {},
        }
        i = i + 1;
    }
    assert(content@.take(i as int) =~= content@);
    (r, calls)
}

proof fn lemma_calls_grow(content: Seq<ContentBlock>, n: int)
    requires
        0 <= n <= content.len(),
    ensures
        agent::calls_in(content.take(n)).len() <= agent::calls_in(content).len(),
    decreases content.len() - n,
{
    if n < content.len() {
        lemma_calls_grow(content, n + 1);
        assert(content.take(n + 1).drop_last() =~= content.take(n));
    } else {
        assert(content.take(n) =~= content);
    }
}

fn build_attached(content: &Vec<ContentBlock>, root: &Option<String>) -> (r: Vec<MsgBlock>)
    ensures
        r.deep_view() == attached_blocks(content@, root.deep_view()),
{
    let mut r: Vec<MsgBlock> = Vec::new();
    let mut i: usize = 0;
    assert(content@.take(0) =~= Seq::<ContentBlock>::empty());
    assert(r.deep_view() =~= Seq::<BlockView>::empty());
    while i < content.len()
        invariant
            i <= content@.len(),
            r.deep_view() == attached_blocks(content@.take(i as int), root.deep_view()),
        decreases content@.len() - i,
    {
        let ghost next = content@.take(i + 1);
        let ghost before = r.deep_view();
        assert(next.drop_last() =~= content@.take(i as int));
        match &content[i] {
            ContentBlock::File { name, bytes, .. } => {
                r.push(
                    MsgBlock::Attachment(
                        ChatAttachment::FileCard { name: name.clone(), bytes: *bytes },
                    ),
                );
                assert(r.deep_view() =~= before.push(
                    BlockView::FileCard { name: name@, bytes: *bytes },
                ));
            },
            ContentBlock::Image { attachment_id } => {
                let path: Option<String> = crate::filetype::attachment_image_object_path(
                    root,
                    attachment_id.as_str(),
                );
                r.push(MsgBlock::Attachment(ChatAttachment::ImageTile { path }));
                assert(r.deep_view() =~= before.push(
                    BlockView::ImageTile { path: path.deep_view() },
                ));
            },
            _ => {},
        }
        i = i + 1;
    }
    assert(content@.take(i as int) =~= content@);
    r
}

fn push_entry(entries: &mut Vec<ChatEntry>, e: ChatEntry)
    ensures
        final(entries).deep_view() == old(entries).deep_view().push(e.deep_view()),
        final(entries).deep_view() == old(entries).deep_view() + seq![e.deep_view()],
{
    let ghost before = entries.deep_view();
    entries.push(e);
    assert(entries.deep_view() =~= before.push(e.deep_view()));
    assert(entries.deep_view() =~= before + seq![e.deep_view()]);
}

/// Puts the result of a call at the last part of the last entry that made it.
fn attach_tool_result(entries: &mut Vec<ChatEntry>, call_id: &str, result: &str, error: bool)
    ensures
        final(entries).deep_view() == result_attached(
            old(entries).deep_view(),
            call_id@,
            result@,
            error,
        ),
{
    let ghost before = entries.deep_view();
    let n: usize = entries.len();
    if n > 0 {
        assert(before.last() == entries@[n - 1].deep_view());
        attach_result(&mut entries[n - 1].blocks, call_id, result, error);
        assert(entries.deep_view() =~= result_attached(before, call_id@, result@, error));
    }
}

fn attach_call_duration(entries: &mut Vec<ChatEntry>, call_id: &str, ms: Option<u64>)
    ensures
        final(entries).deep_view() == duration_attached(old(entries).deep_view(), call_id@, ms),
{
    let ghost before = entries.deep_view();
    let n: usize = entries.len();
    if n > 0 {
        assert(before.last() == entries@[n - 1].deep_view());
        attach_duration(&mut entries[n - 1].blocks, call_id, ms);
        assert(entries.deep_view() =~= duration_attached(before, call_id@, ms));
    }
}

impl Replay {
    fn new() -> (r: Self)
        ensures
            r.deep_view() == no_replay(),
    {
        let r: Replay = Replay {
            entries: Vec::new(),
            turn: 0,
            unfinished: false,
            anchor: None,
            starts: Vec::new(),
            last_answer: None,
            counts: Counts::none(),
        };
        assert(r.entries.deep_view() =~= Seq::<EntryView>::empty());
        r
    }

    fn answer(
        &mut self,
        content: &Vec<ContentBlock>,
        usage: &Option<TokenUsage>,
        step: u64,
        time_ms: Option<u64>,
    )
        requires
            old(self).deep_view().counts.after_answer(
                *usage,
                agent::calls_in(content@).len(),
            ).fits(),
        ensures
            ({
                let s = old(self).deep_view();
                let added = answer_entries(s, content@, *usage, step, time_ms);
                final(self).deep_view() == (ReplayView {
                    entries: s.entries + added,
                    last_answer: if added.len() > 0 {
                        time_ms
                    } else {
                        s.last_answer
                    },
                    counts: s.counts.after_answer(*usage, agent::calls_in(content@).len()),
                    ..s
                })
            }),
    {
        let ghost s = self.deep_view();
        let (blocks, calls) = build_answer_blocks(content);
        self.counts.add_answer(usage, calls);
        if blocks.len() > 0 {
            let mut e: ChatEntry = make_entry(Role::Assistant, blocks, true, self.turn);
            e.usage = make_step_usage(usage);
            e.step = Some(step);
            e.step_duration_ms = window(assoc::find_step(&self.starts, (self.turn, step)), time_ms);
            let ghost shown = e.deep_view();
            assert(answer_entries(s, content@, *usage, step, time_ms) =~= seq![shown]);
            push_entry(&mut self.entries, e);
            self.last_answer = time_ms;
        } else {
            assert(answer_entries(s, content@, *usage, step, time_ms) =~= Seq::empty());
            assert(s.entries + Seq::<EntryView>::empty() =~= s.entries);
        }
    }

    fn system(&mut self, m: &Message, replaces: bool)
        ensures
            final(self).deep_view() == (ReplayView {
                entries: old(self).deep_view().entries + system_entries(
                    *m,
                    replaces,
                    old(self).deep_view().turn,
                ),
                ..old(self).deep_view()
            }),
    {
        let ghost s = self.deep_view();
        let line: String = session::join_texts(&m.content, "\n");
        if line.as_str().is_empty() {
            assert(s.entries + Seq::<EntryView>::empty() =~= s.entries);
            return;
        }
        let title: String = if replaces {
            "系统提示词更新".to_owned()
        } else {
            "系统提示词".to_owned()
        };
        let mut e: ChatEntry = make_entry(Role::Context, one_text(line), true, self.turn);
        e.context = Some(ContextInfo { title, label: None, summary: None });
        push_entry(&mut self.entries, e);
    }

    fn user(&mut self, m: &Message, root: &Option<String>)
        ensures
            final(self).deep_view() == (ReplayView {
                entries: old(self).deep_view().entries + user_entries(
                    *m,
                    root.deep_view(),
                    old(self).deep_view().turn,
                ),
                ..old(self).deep_view()
            }),
    {
        let ghost s = self.deep_view();
        let line: String = session::join_texts(&m.content, "");
        let attached: Vec<MsgBlock> = build_attached(&m.content, root);
        assert(attached.deep_view().len() == attached@.len());
        if line.as_str().is_empty() && attached.len() == 0 {
            assert(s.entries + Seq::<EntryView>::empty() =~= s.entries);
            return;
        }
        match &m.source {
            MessageSource::Context(c) => {
                let mut e: ChatEntry = make_entry(Role::Context, one_text(line), true, self.turn);
                e.context = Some(context_info(c));
                push_entry(&mut self.entries, e);
            },
            _ => {
                let mut blocks: Vec<MsgBlock> = attached;
                let ghost before = blocks.deep_view();
                if !line.as_str().is_empty() {
                    blocks.push(MsgBlock::Text(line));
                    assert(blocks.deep_view() =~= before.push(BlockView::Text(line@)));
                }
                let e: ChatEntry = make_entry(Role::User, blocks, true, self.turn);
                push_entry(&mut self.entries, e);
            },
        }
    }

    fn tool_result(&mut self, m: &Message, time_ms: Option<u64>)
        ensures
            final(self).deep_view() == (ReplayView {
                entries: with_tool_result(old(self).deep_view(), *m, time_ms),
                ..old(self).deep_view()
            }),
    {
        if m.content.len() > 0 {
            match &m.content[0] {
                ContentBlock::ToolResult { tool_call_id, content, is_error } => {
                    let result: String = session::join_result(content);
                    let error: bool = match is_error {
                        Some(b) => *b,
                        None => false,
                    };
                    attach_tool_result(
                        &mut self.entries,
                        tool_call_id.as_str(),
                        result.as_str(),
                        error,
                    );
                    if time_ms.is_some() && self.last_answer.is_some() {
                        let ms: Option<u64> = window(self.last_answer, time_ms);
                        attach_call_duration(&mut self.entries, tool_call_id.as_str(), ms);
                    }
                },
                _ => {},
            }
        }
    }

    fn step(&mut self, root: &Option<String>, e: &SessionEvent)
        requires
            replay_step(old(self).deep_view(), root.deep_view(), *e).counts.fits(),
        ensures
            final(self).deep_view() == replay_step(old(self).deep_view(), root.deep_view(), *e),
    {
        match e {
            SessionEvent::TurnStart { turn } => {
                self.turn = *turn;
                self.unfinished = true;
                self.anchor = None;
                self.counts.turns = self.counts.turns + 1;
            },
            SessionEvent::TurnEnd { reason, .. } => {
                self.unfinished = false;
                match reason {
                    TurnEndReason::Error(f) => {
                        let mut line: String = text::concat3("[", f.code.as_str(), "] ");
                        line.append(f.message.as_str());
                        let e: ChatEntry = make_entry(
                            Role::Error,
                            one_text(line),
                            true,
                            self.turn,
                        );
                        push_entry(&mut self.entries, e);
                    },
                    _ => {},
                }
            },
            SessionEvent::AssistantMessage { usage, message, step, time_ms, .. } => {
                self.answer(&message.content, usage, *step, *time_ms);
            },
            SessionEvent::ToolCall { .. } => {
                self.counts.tools = self.counts.tools + 1;
            },
            SessionEvent::SystemMessage { message, replace, .. } => {
                self.system(message, replace.is_some());
            },
            SessionEvent::UserMessage(m) => {
                self.user(m, root);
            },
            SessionEvent::StepStart { turn, step, time_ms } => match time_ms {
                Some(t) => {
                    assoc::remove_step(&mut self.starts, (*turn, *step));
                    self.starts.push(((*turn, *step), *t));
                    if self.unfinished && self.anchor.is_none() {
                        self.anchor = Some(*t);
                    }
                },
                None => {},
            },
            SessionEvent::ToolResult { message, time_ms, .. } => {
                self.tool_result(message, *time_ms);
            },
            SessionEvent::Compaction(_) => {
                let none: Vec<MsgBlock> = Vec::new();
                assert(none.deep_view() =~= Seq::<BlockView>::empty());
                let e: ChatEntry = make_entry(Role::Notice, none, true, self.turn);
                push_entry(&mut self.entries, e);
            },
            _ => {},
        }
    }
}

proof fn lemma_counts_step(s: ReplayView, root: Option<Seq<char>>, e: SessionEvent)
    ensures
        s.counts.within(replay_step(s, root, e).counts),
{
}

proof fn lemma_counts_grow(entries: Seq<SessionEntry>, root: Option<Seq<char>>, n: int)
    requires
        0 <= n <= entries.len(),
    ensures
        replay(entries.take(n), root).counts.within(replay(entries, root).counts),
    decreases entries.len() - n,
{
    if n < entries.len() {
        lemma_counts_grow(entries, root, n + 1);
        let next = entries.take(n + 1);
        assert(next.drop_last() =~= entries.take(n));
        lemma_counts_step(replay(entries.take(n), root), root, next.last().event);
    } else {
        assert(entries.take(n) =~= entries);
    }
}

fn replay_log(entries: &Vec<SessionEntry>, root: &Option<String>) -> (r: Replay)
    requires
        replay(entries@, root.deep_view()).counts.fits(),
    ensures
        r.deep_view() == replay(entries@, root.deep_view()),
{
    let mut r: Replay = Replay::new();
    let mut i: usize = 0;
    assert(entries@.take(0) =~= Seq::<SessionEntry>::empty());
    while i < entries.len()
        invariant
            i <= entries@.len(),
            replay(entries@, root.deep_view()).counts.fits(),
            r.deep_view() == replay(entries@.take(i as int), root.deep_view()),
        decreases entries@.len() - i,
    {
        let ghost next = entries@.take(i + 1);
        assert(next.drop_last() =~= entries@.take(i as int));
        proof {
            lemma_counts_grow(entries@, root.deep_view(), i + 1);
        }
        r.step(root, &entries[i].event);
        i = i + 1;
    }
    assert(entries@.take(i as int) =~= entries@);
    r
}

fn find_latest_start(starts: &Vec<(assoc::StepKey, u64)>, turn: u64) -> (r: Option<u64>)
    ensures
        r == latest_start(starts@, turn),
{
    let mut r: Option<u64> = None;
    let mut i: usize = 0;
    assert(starts@.take(0) =~= Seq::<(assoc::StepKey, u64)>::empty());
    while i < starts.len()
        invariant
            i <= starts@.len(),
            r == latest_start(starts@.take(i as int), turn),
        decreases starts@.len() - i,
    {
        let ghost next = starts@.take(i + 1);
        assert(next.drop_last() =~= starts@.take(i as int));
        let e: (assoc::StepKey, u64) = starts[i];
        if e.0.0 == turn {
            r = match r {
                Some(t) => if t >= e.1 {
                    Some(t)
                } else {
                    Some(e.1)
                },
                None => Some(e.1),
            };
        }
        i = i + 1;
    }
    assert(starts@.take(i as int) =~= starts@);
    r
}

// ---------------------------------------------------------------------------
// the transcript
// ---------------------------------------------------------------------------

/// What the centre of the window shows.
#[derive(Clone, Copy, Debug, PartialEq, Eq, Structural)]
pub enum CenterTab {
    Conversation,
    Trajectory,
}

/// The transcript of the session in view. Points in time are nanoseconds on a
/// clock of their own, unless they end in `ms`.
pub struct ChatView {
    pub entries: Vec<ChatEntry>,
    pub running: bool,
    pub turn_started: Option<u64>,
    /// The turn that a replayed log has left open.
    pub unfinished_turn: Option<u64>,
    pub turn_anchor_ms: Option<u64>,
    pub step_anchor_ms: Option<u64>,
    pub tab: CenterTab,
    /// The current or latest turn.
    pub ui_turn: u64,
    pub turn_open: Option<u64>,
    /// The turns that were unfolded by hand.
    pub turn_expanded: HashSet<u64>,
    pub ui_step: u64,
    pub counts: Counts,
    pub ttft_sum_ms: u64,
    pub ttft_steps: u64,
    pub decode_ms: u64,
    pub decode_tokens: u64,
    pub llm_ns: u64,
    pub tool_ns: u64,
    pub turn_tool_ns: u64,
    pub turn_usage: TurnUsage,
    pub first_token: Option<u64>,
    pub tool_starts: Vec<(String, u64)>,
    pub step_start: Option<u64>,
    pub heights_dirty: bool,
    pub reset_pending: bool,
    /// The number of rows that the list was told of.
    pub items: usize,
    pub at_bottom: bool,
    pub active_turn: Option<u64>,
    pub route_label: String,
    pub attachments_root: Option<String>,
}

/// The contents of a transcript.
pub struct ChatState {
    pub entries: Seq<EntryView>,
    pub running: bool,
    pub turn_started: Option<u64>,
    pub unfinished_turn: Option<u64>,
    pub turn_anchor_ms: Option<u64>,
    pub step_anchor_ms: Option<u64>,
    pub tab: CenterTab,
    pub ui_turn: u64,
    pub turn_open: Option<u64>,
    pub turn_expanded: Set<u64>,
    pub ui_step: nat,
    pub counts: CountsView,
    pub ttft_sum_ms: nat,
    pub ttft_steps: nat,
    pub decode_ms: nat,
    pub decode_tokens: nat,
    pub llm_ns: nat,
    pub tool_ns: nat,
    pub turn_tool_ns: nat,
    pub turn_usage: UsageView,
    pub first_token: Option<u64>,
    pub tool_starts: Seq<(Seq<char>, u64)>,
    pub step_start: Option<u64>,
    pub heights_dirty: bool,
    pub reset_pending: bool,
    pub items: nat,
    pub at_bottom: bool,
    pub active_turn: Option<u64>,
    pub route_label: Seq<char>,
    pub attachments_root: Option<Seq<char>>,
}

impl DeepView for ChatView {
    type V = ChatState;

    open spec fn deep_view(&self) -> ChatState {
        ChatState {
            entries: self.entries.deep_view(),
            running: self.running,
            turn_started: self.turn_started,
            unfinished_turn: self.unfinished_turn,
            turn_anchor_ms: self.turn_anchor_ms,
            step_anchor_ms: self.step_anchor_ms,
            tab: self.tab,
            ui_turn: self.ui_turn,
            turn_open: self.turn_open,
            turn_expanded: self.turn_expanded@,
            ui_step: self.ui_step as nat,
            counts: self.counts.deep_view(),
            ttft_sum_ms: self.ttft_sum_ms as nat,
            ttft_steps: self.ttft_steps as nat,
            decode_ms: self.decode_ms as nat,
            decode_tokens: self.decode_tokens as nat,
            llm_ns: self.llm_ns as nat,
            tool_ns: self.tool_ns as nat,
            turn_tool_ns: self.turn_tool_ns as nat,
            turn_usage: self.turn_usage.deep_view(),
            first_token: self.first_token,
            tool_starts: self.tool_starts.deep_view(),
            step_start: self.step_start,
            heights_dirty: self.heights_dirty,
            reset_pending: self.reset_pending,
            items: self.items as nat,
            at_bottom: self.at_bottom,
            active_turn: self.active_turn,
            route_label: self.route_label@,
            attachments_root: self.attachments_root.deep_view(),
        }
    }
}

/// Whether an optional count can be held.
pub open spec fn held(n: Option<nat>) -> bool {
    n matches Some(n) ==> n <= u64::MAX
}

impl ChatState {
    /// Whether every number can be held.
    pub open spec fn fits(self) -> bool {
        &&& self.counts.fits()
        &&& self.ui_step <= u64::MAX
        &&& self.ttft_sum_ms <= u64::MAX
        &&& self.ttft_steps <= u64::MAX
        &&& self.decode_ms <= u64::MAX
        &&& self.decode_tokens <= u64::MAX
        &&& self.llm_ns <= u64::MAX
        &&& self.tool_ns <= u64::MAX
        &&& self.turn_tool_ns <= u64::MAX
        &&& self.turn_usage.input_tokens + self.turn_usage.output_tokens <= u64::MAX
        &&& held(self.turn_usage.cache_read)
        &&& held(self.turn_usage.cache_write)
        &&& held(self.turn_usage.reasoning)
        &&& self.entries.len() < usize::MAX
    }

    /// The number of rows of the list: the entries, and one for a running turn.
    pub open spec fn rows(self) -> nat {
        self.entries.len() + (if self.running {
            1nat
        } else {
            0nat
        })
    }
}

/// What the list of rows is told.
#[derive(Clone, Copy, Debug, PartialEq, Eq)]
pub struct ListSync {
    /// All rows are new, and this many.
    pub reset: Option<usize>,
    /// Rows were added: where, and how many.
    pub insert: Option<(usize, usize)>,
    /// The row to scroll to.
    pub scroll_to: Option<usize>,
}

/// What the list of rows is told: everything anew where that is due or rows
/// went away, else what was added; and it is scrolled to the end where that is
/// forced or it stood there.
pub open spec fn list_sync(s: ChatState, force: bool) -> ListSync {
    let n = s.rows();
    let anew = s.reset_pending || n < s.items;
    ListSync {
        reset: if anew {
            Some(n as usize)
        } else {
            None
        },
        insert: if !anew && n > s.items {
            Some((s.items as usize, (n - s.items) as usize))
        } else {
            None
        },
        scroll_to: if n > 0 && (force || s.at_bottom) {
            Some(n as usize)
        } else {
            None
        },
    }
}

/// The transcript after the list was told. At the end of the list the latest
/// turn is the active one.
pub open spec fn synced(s: ChatState, force: bool) -> ChatState {
    let n = s.rows();
    ChatState {
        reset_pending: false,
        items: n,
        active_turn: if n > 0 && (force || s.at_bottom) {
            if s.entries.len() > 0 {
                Some(s.entries.last().turn)
            } else {
                None
            }
        } else {
            s.active_turn
        },
        ..s
    }
}

impl ChatView {
    fn chat_item_count(&self) -> (r: usize)
        requires
            self.entries@.len() < usize::MAX,
        ensures
            r == self.deep_view().rows(),
    {
        assert(self.deep_view().entries.len() == self.entries@.len());
        if self.running {
            self.entries.len() + 1
        } else {
            self.entries.len()
        }
    }

    /// Brings the list of rows up to date.
    pub fn sync_chat_list(&mut self, force_bottom: bool) -> (r: ListSync)
        requires
            old(self).entries@.len() < usize::MAX,
        ensures
            final(self).deep_view() == synced(old(self).deep_view(), force_bottom),
            r == list_sync(old(self).deep_view(), force_bottom),
    {
        let n: usize = self.chat_item_count();
        let mut r: ListSync = ListSync { reset: None, insert: None, scroll_to: None };
        if self.reset_pending || n < self.items {
            r.reset = Some(n);
            self.reset_pending = false;
        } else if n > self.items {
            r.insert = Some((self.items, n - self.items));
        }
        self.items = n;
        if n > 0 && (force_bottom || self.at_bottom) {
            r.scroll_to = Some(n);
            let m: usize = self.entries.len();
            if m > 0 {
                assert(self.deep_view().entries.last() == self.entries@[m - 1].deep_view());
                self.active_turn = Some(self.entries[m - 1].turn);
            } else {
                self.active_turn = None;
            }
        }
        r
    }
}

/// The transcript of a new session.
pub open spec fn emptied(s: ChatState) -> ChatState {
    ChatState {
        entries: Seq::empty(),
        running: false,
        turn_started: None,
        unfinished_turn: None,
        turn_anchor_ms: None,
        step_anchor_ms: None,
        counts: no_counts(),
        ttft_sum_ms: 0,
        ttft_steps: 0,
        decode_ms: 0,
        decode_tokens: 0,
        llm_ns: 0,
        tool_ns: 0,
        turn_tool_ns: 0,
        tool_starts: Seq::empty(),
        tab: CenterTab::Conversation,
        reset_pending: true,
        ..s
    }
}

/// A transcript that shows nothing yet.
pub open spec fn blank_chat(route: Seq<char>, root: Option<Seq<char>>) -> ChatState {
    ChatState {
        entries: Seq::empty(),
        running: false,
        turn_started: None,
        unfinished_turn: None,
        turn_anchor_ms: None,
        step_anchor_ms: None,
        tab: CenterTab::Conversation,
        ui_turn: 0,
        turn_open: None,
        turn_expanded: Set::empty(),
        ui_step: 0,
        counts: no_counts(),
        ttft_sum_ms: 0,
        ttft_steps: 0,
        decode_ms: 0,
        decode_tokens: 0,
        llm_ns: 0,
        tool_ns: 0,
        turn_tool_ns: 0,
        turn_usage: usage::no_usage(),
        first_token: None,
        tool_starts: Seq::empty(),
        step_start: None,
        heights_dirty: false,
        reset_pending: false,
        items: 0,
        at_bottom: true,
        active_turn: None,
        route_label: route,
        attachments_root: root,
    }
}

/// The transcript of a replayed log, before the list is told.
pub open spec fn rebuilt(s: ChatState, r: ReplayView) -> ChatState {
    ChatState {
        entries: r.entries,
        counts: r.counts,
        turn_expanded: Set::empty(),
        turn_open: None,
        ui_turn: r.turn,
        unfinished_turn: if r.unfinished {
            Some(r.turn)
        } else {
            None
        },
        turn_anchor_ms: if r.unfinished {
            r.anchor
        } else {
            None
        },
        step_anchor_ms: if r.unfinished {
            latest_start(r.starts, r.turn)
        } else {
            None
        },
        ..emptied(s)
    }
}

/// The largest step of the entries of a turn; 0 where there is none.
pub open spec fn largest_step(entries: Seq<EntryView>, turn: u64) -> nat
    decreases entries.len(),
{
    if entries.len() == 0 {
        0
    } else {
        let head = largest_step(entries.drop_last(), turn);
        let e = entries.last();
        if e.turn == turn && (e.step matches Some(n) && n > head) {
            e.step->0 as nat
        } else {
            head
        }
    }
}

/// The transcript of a session whose turn still runs, joined to the events
/// that come; the clocks of the turn and the step go on from where the log
/// started them, or the turn's from now.
pub open spec fn resumed(
    s: ChatState,
    now: u64,
    turn_start: Option<u64>,
    step_start: Option<u64>,
) -> ChatState {
    match s.unfinished_turn {
        Some(turn) => ChatState {
            running: true,
            turn_open: Some(turn),
            ui_turn: turn,
            ui_step: largest_step(s.entries, turn),
            turn_started: match turn_start {
                Some(t) => Some(t),
                None => Some(now),
            },
            step_start,
            heights_dirty: false,
            ..s
        },
        None => s,
    }
}

/// The point on the clock at which a wall clock time was, `now` and `wall_ms`
/// being the same moment on both; nothing for a time that is not known, lies
/// ahead or would lie before the clock.
pub open spec fn clock_at(ms: Option<u64>, now: u64, wall_ms: u64) -> Option<u64> {
    match ms {
        Some(t) => {
            let ago = (wall_ms - t) * 1000000;
            if t <= wall_ms && ago <= now {
                Some((now - ago) as u64)
            } else {
                None
            }
        },
        None => None,
    }
}

/// The point on the clock at which a wall clock time was.
pub fn ms_ago(ms: Option<u64>, now: u64, wall_ms: u64) -> (r: Option<u64>)
    ensures
        r == clock_at(ms, now, wall_ms),
{
    match ms {
        Some(t) => {
            if t > wall_ms {
                return None;
            }
            let ago: u128 = ((wall_ms - t) as u128) * 1000000;
            if ago <= now as u128 {
                Some((now as u128 - ago) as u64)
            } else {
                None
            }
        },
        None => None,
    }
}

impl ChatView {
    fn clear(&mut self)
        ensures
            final(self).deep_view() == emptied(old(self).deep_view()),
    {
        self.entries = Vec::new();
        self.running = false;
        self.turn_started = None;
        self.unfinished_turn = None;
        self.turn_anchor_ms = None;
        self.step_anchor_ms = None;
        self.counts = Counts::none();
        self.ttft_sum_ms = 0;
        self.ttft_steps = 0;
        self.decode_ms = 0;
        self.decode_tokens = 0;
        self.llm_ns = 0;
        self.tool_ns = 0;
        self.turn_tool_ns = 0;
        self.tool_starts = Vec::new();
        self.tab = CenterTab::Conversation;
        self.reset_pending = true;
        assert(self.entries.deep_view() =~= Seq::<EntryView>::empty());
        assert(self.tool_starts.deep_view() =~= Seq::<(Seq<char>, u64)>::empty());
    }

    /// A transcript that shows nothing yet.
    pub fn new(route_label: String, attachments_root: Option<String>) -> (r: Self)
        ensures
            r.deep_view() == blank_chat(route_label@, attachments_root.deep_view()),
    {
        let r = ChatView {
            entries: Vec::new(),
            running: false,
            turn_started: None,
            unfinished_turn: None,
            turn_anchor_ms: None,
            step_anchor_ms: None,
            tab: CenterTab::Conversation,
            ui_turn: 0,
            turn_open: None,
            turn_expanded: HashSet::new(),
            ui_step: 0,
            counts: Counts::none(),
            ttft_sum_ms: 0,
            ttft_steps: 0,
            decode_ms: 0,
            decode_tokens: 0,
            llm_ns: 0,
            tool_ns: 0,
            turn_tool_ns: 0,
            turn_usage: TurnUsage::default(),
            first_token: None,
            tool_starts: Vec::new(),
            step_start: None,
            heights_dirty: false,
            reset_pending: false,
            items: 0,
            at_bottom: true,
            active_turn: None,
            route_label,
            attachments_root,
        };
        assert(r.entries.deep_view() =~= Seq::<EntryView>::empty());
        assert(r.tool_starts.deep_view() =~= Seq::<(Seq<char>, u64)>::empty());
        r
    }

    /// Empties the transcript for a new session.
    pub fn reset_empty(&mut self) -> (r: ListSync)
        ensures
            final(self).deep_view() == synced(emptied(old(self).deep_view()), true),
            r == list_sync(emptied(old(self).deep_view()), true),
    {
        self.clear();
        self.sync_chat_list(true)
    }

    /// Shows the log of a session from the start.
    pub fn rebuild_from(&mut self, session: &Session) -> (r: ListSync)
        requires
            replay(session.entries@, old(self).deep_view().attachments_root).counts.fits(),
            replay(
                session.entries@,
                old(self).deep_view().attachments_root,
            ).entries.len() < usize::MAX,
        ensures
            ({
                let s = old(self).deep_view();
                let shown = rebuilt(s, replay(session.entries@, s.attachments_root));
                &&& final(self).deep_view() == synced(shown, true)
                &&& r == list_sync(shown, true)
            }),
    {
        let ghost s = self.deep_view();
        let done: Replay = replay_log(&session.entries, &self.attachments_root);
        self.clear();
        assert(done.deep_view().entries.len() == done.entries@.len());
        if done.unfinished {
            self.unfinished_turn = Some(done.turn);
            self.turn_anchor_ms = done.anchor;
            self.step_anchor_ms = find_latest_start(&done.starts, done.turn);
        }
        self.ui_turn = done.turn;
        self.turn_open = None;
        self.turn_expanded = HashSet::new();
        self.counts = done.counts;
        self.entries = done.entries;
        assert(self.deep_view() == rebuilt(s, replay(session.entries@, s.attachments_root)));
        self.sync_chat_list(true)
    }

    /// Joins a replayed session whose turn still runs to the events that come.
    pub fn resume_running(&mut self, now: u64, wall_ms: u64)
        ensures
            final(self).deep_view() == resumed(
                old(self).deep_view(),
                now,
                clock_at(old(self).turn_anchor_ms, now, wall_ms),
                clock_at(old(self).step_anchor_ms, now, wall_ms),
            ),
    {
        let turn: u64 = match self.unfinished_turn {
            Some(turn) => turn,
            None => {
                return;
            },
        };
        let ghost all = self.entries.deep_view();
        let mut step: u64 = 0;
        let mut i: usize = 0;
        assert(all.take(0) =~= Seq::<EntryView>::empty());
        while i < self.entries.len()
            invariant
                i <= self.entries@.len(),
                all == self.entries.deep_view(),
                self.deep_view() == old(self).deep_view(),
                step == largest_step(all.take(i as int), turn),
            decreases self.entries@.len() - i,
        {
            let ghost next = all.take(i + 1);
            assert(next.drop_last() =~= all.take(i as int));
            assert(next.last() == self.entries@[i as int].deep_view());
            if self.entries[i].turn == turn {
                match self.entries[i].step {
                    Some(n) => {
                        if n > step {
                            step = n;
                        }
                    },
                    None => {},
                }
            }
            i = i + 1;
        }
        assert(all.take(i as int) =~= all);
        let turn_start: Option<u64> = ms_ago(self.turn_anchor_ms, now, wall_ms);
        let step_start: Option<u64> = ms_ago(self.step_anchor_ms, now, wall_ms);
        self.running = true;
        self.turn_open = Some(turn);
        self.ui_turn = turn;
        self.ui_step = step;
        self.turn_started = match turn_start {
            Some(t) => Some(t),
            None => Some(now),
        };
        self.step_start = step_start;
        self.heights_dirty = false;
    }
}

// ---------------------------------------------------------------------------
// events
// ---------------------------------------------------------------------------

/// Whether an entry waits for its turn: it was put in before the turn started.
pub open spec fn waits(e: EntryView, turn: u64) -> bool {
    (e.role == Role::User || e.role == Role::Context || e.role == Role::Notice) && e.turn < turn
}

/// The entries with the turn at all that wait for it at the end.
pub open spec fn stamped(entries: Seq<EntryView>, turn: u64) -> Seq<EntryView>
    decreases entries.len(),
{
    if entries.len() > 0 && waits(entries.last(), turn) {
        stamped(entries.drop_last(), turn).push(EntryView { turn, ..entries.last() })
    } else {
        entries
    }
}

/// The entries with an unfinished answer at the end.
pub open spec fn with_open_answer(entries: Seq<EntryView>, turn: u64) -> Seq<EntryView> {
    if entries.len() > 0 && entries.last().role == Role::Assistant && !entries.last().done {
        entries
    } else {
        entries.push(bare_entry(Role::Assistant, Seq::empty(), false, turn))
    }
}

/// The parts with more text at the end.
pub open spec fn more_text(blocks: Seq<BlockView>, s: Seq<char>) -> Seq<BlockView> {
    if blocks.len() > 0 && blocks.last() is Text {
        blocks.drop_last().push(BlockView::Text(blocks.last()->Text_0 + s))
    } else {
        blocks.push(BlockView::Text(s))
    }
}

/// The parts with more of a thought at the end.
pub open spec fn more_reasoning(blocks: Seq<BlockView>, s: Seq<char>) -> Seq<BlockView> {
    if blocks.len() > 0 && blocks.last() is Reasoning {
        blocks.drop_last().push(
            BlockView::Reasoning {
                text: blocks.last()->Reasoning_text + s,
                open: blocks.last()->Reasoning_open,
            },
        )
    } else {
        blocks.push(BlockView::Reasoning { text: s, open: false })
    }
}

/// `a`, or `b` where there is none.
pub open spec fn or_now(a: Option<u64>, b: u64) -> Option<u64> {
    match a {
        Some(t) => Some(t),
        None => Some(b),
    }
}

/// The nanoseconds from a point in time to a later one.
pub open spec fn since(t: u64, now: u64) -> nat {
    usage::less(now as int, t as int) as nat
}

/// Whole milliseconds that are more than nothing.
pub open spec fn some_ms(ns: nat) -> Option<u64> {
    if ns / 1000000 > 0 {
        Some((ns / 1000000) as u64)
    } else {
        None
    }
}

/// Two counts added up, as far as they are known.
pub open spec fn sum_known(a: Option<nat>, b: Option<u64>) -> Option<nat> {
    match (a, b) {
        (Some(a), Some(b)) => Some(a + b as nat),
        (None, Some(b)) => Some(b as nat),
        (a, None) => a,
    }
}

/// The figures of a turn after one more answer.
pub open spec fn usage_after(u: UsageView, a: Option<TokenUsage>) -> UsageView {
    match a {
        Some(a) => UsageView {
            input_tokens: u.input_tokens + a.input_tokens as nat,
            output_tokens: u.output_tokens + a.output_tokens as nat,
            cache_read: sum_known(u.cache_read, a.cache_read_tokens),
            cache_write: sum_known(u.cache_write, a.cache_write_tokens),
            reasoning: sum_known(u.reasoning, a.reasoning_tokens),
            ..u
        },
        None => u,
    }
}

/// A turn has started.
pub open spec fn after_turn_start(s: ChatState, turn: u64, now: u64) -> ChatState {
    ChatState {
        running: true,
        turn_started: Some(now),
        counts: CountsView { turns: s.counts.turns + 1, ..s.counts },
        entries: stamped(s.entries, turn),
        ui_turn: turn,
        turn_open: Some(turn),
        turn_tool_ns: 0,
        turn_usage: usage::no_usage(),
        first_token: None,
        tool_starts: Seq::empty(),
        step_start: None,
        ui_step: 0,
        heights_dirty: false,
        ..s
    }
}

/// A piece of text or of a thought has come.
pub open spec fn after_delta(s: ChatState, piece: Seq<char>, thought: bool, now: u64) -> ChatState {
    let entries = with_open_answer(s.entries, s.ui_turn);
    ChatState {
        first_token: or_now(s.first_token, now),
        step_start: or_now(s.step_start, now),
        entries: on_last(
            entries,
            if thought {
                more_reasoning(entries.last().blocks, piece)
            } else {
                more_text(entries.last().blocks, piece)
            },
        ),
        heights_dirty: true,
        ..s
    }
}

/// A tool was called.
pub open spec fn after_call(
    s: ChatState,
    id: Seq<char>,
    name: Seq<char>,
    arguments: Seq<char>,
    now: u64,
) -> ChatState {
    let entries = with_open_answer(s.entries, s.ui_turn);
    ChatState {
        counts: CountsView { tools: s.counts.tools + 1, ..s.counts },
        step_start: or_now(s.step_start, now),
        tool_starts: assoc::put(s.tool_starts, id, now),
        entries: on_last(
            entries,
            entries.last().blocks.push(BlockView::Tool(fresh_tool(id, name, arguments))),
        ),
        ..s
    }
}

/// A tool has answered with `result`.
pub open spec fn after_result(
    s: ChatState,
    id: Seq<char>,
    error: bool,
    result: Seq<char>,
    now: u64,
) -> ChatState {
    let start = assoc::lookup(s.tool_starts, id);
    let ms = match start {
        Some(t) => some_ms(since(t, now)),
        None => None,
    };
    ChatState {
        turn_tool_ns: match start {
            Some(t) => s.turn_tool_ns + since(t, now),
            None => s.turn_tool_ns,
        },
        tool_starts: assoc::without(s.tool_starts, id),
        entries: result_attached(duration_attached(s.entries, id, ms), id, result, error),
        ..s
    }
}

/// The last entry with the step and, where its answer was open, closed with
/// the figures.
pub open spec fn step_closed(
    e: EntryView,
    step: u64,
    ms: Option<Option<u64>>,
    usage: Option<TokenUsage>,
) -> EntryView {
    let open = e.role == Role::Assistant && !e.done;
    EntryView {
        step: Some(step),
        step_duration_ms: match ms {
            Some(ms) => ms,
            None => e.step_duration_ms,
        },
        done: e.done || open,
        usage: if open && usage is Some {
            step_usage(usage)
        } else {
            e.usage
        },
        ..e
    }
}

/// An answer is complete.
pub open spec fn after_answer(s: ChatState, usage: Option<TokenUsage>, now: u64) -> ChatState {
    let ms = match s.step_start {
        Some(t) => Some(some_ms(since(t, now))),
        None => None,
    };
    ChatState {
        ui_step: s.ui_step + 1,
        step_start: None,
        counts: s.counts.after_answer(usage, 0),
        turn_usage: usage_after(s.turn_usage, usage),
        entries: if s.entries.len() > 0 {
            s.entries.drop_last().push(
                step_closed(s.entries.last(), (s.ui_step + 1) as u64, ms, usage),
            )
        } else {
            s.entries
        },
        ..s
    }
}

/// The figures of a turn at its end.
pub open spec fn turn_figures(s: ChatState, now: u64) -> UsageView {
    let base = UsageView { route: s.route_label, ..s.turn_usage };
    match (s.turn_started, s.first_token) {
        (Some(start), Some(first)) => {
            let total = since(start, now);
            UsageView {
                run_ms: total / 1000000,
                llm_ms: usage::less(total as int, s.turn_tool_ns as int) as nat / 1000000,
                ttft_ms: Some(since(start, first) / 1000000),
                ..base
            }
        },
        _ => base,
    }
}

/// A turn is over. Its figures go to the session's, and to its last entry
/// where that has none.
pub open spec fn after_turn_end(s: ChatState, turn: u64, now: u64, wall_ms: u64) -> ChatState {
    let elapsed = match s.turn_started {
        Some(t) => Some(since(t, now) as u64),
        None => None,
    };
    let figures = turn_figures(s, now);
    let llm = match s.turn_started {
        Some(t) => usage::less(since(t, now) as int, s.turn_tool_ns as int) as nat,
        None => 0nat,
    };
    let decodes = figures.ttft_ms matches Some(ttft) && s.turn_started is Some && llm / 1000000
        > ttft;
    ChatState {
        running: false,
        turn_usage: usage::no_usage(),
        first_token: None,
        llm_ns: s.llm_ns + llm,
        tool_ns: s.tool_ns + (if s.turn_started is Some {
            s.turn_tool_ns
        } else {
            0
        }),
        ttft_sum_ms: s.ttft_sum_ms + (match figures.ttft_ms {
            Some(t) => t,
            None => 0nat,
        }),
        ttft_steps: s.ttft_steps + (if figures.ttft_ms is Some {
            1nat
        } else {
            0nat
        }),
        decode_ms: s.decode_ms + (if decodes {
            (llm / 1000000 - figures.ttft_ms->0) as nat
        } else {
            0nat
        }),
        decode_tokens: s.decode_tokens + (if decodes {
            figures.output_tokens
        } else {
            0nat
        }),
        entries: if s.entries.len() > 0 {
            s.entries.drop_last().push(
                turn_closed(s.entries.last(), elapsed, figures, wall_ms),
            )
        } else {
            s.entries
        },
        turn_started: None,
        turn_open: None,
        turn_expanded: s.turn_expanded.remove(turn),
        ..s
    }
}

/// The transcript after an event, before the list is told. `result` is what
/// the log holds as the result of a call.
pub open spec fn after_event(
    s: ChatState,
    ev: AgentEvent,
    log: Seq<SessionEntry>,
    now: u64,
    wall_ms: u64,
) -> ChatState {
    match ev {
        AgentEvent::TurnStarted { turn } => after_turn_start(s, turn, now),
        AgentEvent::TextDelta { text } => after_delta(s, text@, false, now),
        AgentEvent::ReasoningDelta { text } => after_delta(s, text@, true, now),
        AgentEvent::ToolCall { tool_call_id, name, arguments } => after_call(
            s,
            tool_call_id@,
            name@,
            arguments@,
            now,
        ),
        AgentEvent::ToolResult { tool_call_id, is_error } => after_result(
            s,
            tool_call_id@,
            is_error,
            session::latest_result(log, tool_call_id@).0,
            now,
        ),
        AgentEvent::AssistantMessage { usage, .. } => after_answer(s, usage, now),
        AgentEvent::TurnEnded { turn, .. } => after_turn_end(s, turn, now, wall_ms),
        AgentEvent::Error { message, .. } => ChatState {
            running: false,
            turn_started: None,
            entries: s.entries.push(
                bare_entry(Role::Error, seq![BlockView::Text(message@)], true, s.ui_turn),
            ),
            ..s
        },
        AgentEvent::Compacted { .. } => ChatState {
            entries: s.entries.push(bare_entry(Role::Notice, Seq::empty(), true, s.ui_turn)),
            ..s
        },
    }
}

/// Whether an event changes more of the window than the transcript.
pub open spec fn reaches_window(ev: AgentEvent) -> bool {
    ev is TurnStarted || ev is TurnEnded || ev is Error || ev is AssistantMessage
}

fn elapsed_since(t: u64, now: u64) -> (r: u64)
    ensures
        r == since(t, now),
{
    now.saturating_sub(t)
}

fn known_ms(ns: u64) -> (r: Option<u64>)
    ensures
        r == some_ms(ns as nat),
{
    let ms: u64 = ns / 1000000;
    if ms > 0 {
        Some(ms)
    } else {
        None
    }
}

fn add_known(a: Option<u64>, b: Option<u64>) -> (r: Option<u64>)
    requires
        held(sum_known(usage::count_of(a), b)),
    ensures
        usage::count_of(r) == sum_known(usage::count_of(a), b),
{
    match (a, b) {
        (Some(a), Some(b)) => Some(a + b),
        (None, Some(b)) => Some(b),
        (a, None) => a,
    }
}

impl ChatView {
    fn stamp(&mut self, turn: u64)
        ensures
            final(self).deep_view() == (ChatState {
                entries: stamped(old(self).deep_view().entries, turn),
                ..old(self).deep_view()
            }),
    {
        let ghost before = self.entries.deep_view();
        let ghost s = self.deep_view();
        let mut n: usize = self.entries.len();
        let total: usize = self.entries.len();
        let mut more: bool = true;
        assert(before.take(n as int) =~= before);
        assert(self.entries.deep_view() =~= before.take(n as int) + before.skip(n as int));
        let ghost mut tail: Seq<EntryView> = Seq::empty();
        assert(stamped(before, turn) =~= stamped(before.take(n as int), turn) + tail);
        while more && n > 0
            invariant
                n <= total,
                total == self.entries@.len(),
                total == before.len(),
                s == (ChatState { entries: before, ..self.deep_view() }),
                tail.len() == total - n,
                stamped(before, turn) == stamped(before.take(n as int), turn) + tail,
                self.entries.deep_view() == before.take(n as int) + tail,
                !more ==> n > 0 && !waits(before[n - 1], turn),
            decreases n + (if more { 1int } else { 0int }),
        {
            let i: usize = n - 1;
            let ghost now = self.entries.deep_view();
            assert(now[i as int] == before[i as int]);
            assert(now[i as int] == self.entries@[i as int].deep_view());
            let kind: bool = match self.entries[i].role {
                Role::User => true,
                Role::Context => true,
                Role::Notice => true,
                _ => false,
            };
            let hit: bool = kind && self.entries[i].turn < turn;
            assert(hit == waits(before[i as int], turn));
            if hit {
                let ghost prev = self.entries@;
                self.entries[i].turn = turn;
                proof {
                    assert forall|k: int| 0 <= k < total && k != i implies (
                    #[trigger] self.entries@[k]).deep_view() == now[k] by {
                        assert(self.entries@[k] == prev[k]);
                    }
                    let e = EntryView { turn, ..before[i as int] };
                    assert(self.entries@[i as int].deep_view() == e);
                    let part = before.take(n as int);
                    assert(part.last() == before[i as int]);
                    assert(part.drop_last() =~= before.take(i as int));
                    assert(stamped(part, turn) == stamped(before.take(i as int), turn).push(e));
                    assert(stamped(before, turn) =~= stamped(before.take(i as int), turn) + (
                    seq![e] + tail));
                    let old_tail = tail;
                    tail = seq![e] + tail;
                    let want = before.take(i as int) + tail;
                    assert forall|k: int| 0 <= k < total implies self.entries.deep_view()[k]
                        == want[k] by {
                        assert(self.entries.deep_view()[k] == self.entries@[k].deep_view());
                        if k != i {
                            assert(now[k] == (before.take(n as int) + old_tail)[k]);
                        }
                    }
                    assert(self.entries.deep_view() =~= want);
                }
                n = i;
            } else {
                more = false;
            }
        }
        proof {
            let part = before.take(n as int);
            if n > 0 {
                assert(part.last() == before[n - 1]);
            }
            assert(stamped(part, turn) == part);
        }
    }

    fn open_answer(&mut self)
        ensures
            final(self).deep_view() == (ChatState {
                entries: with_open_answer(old(self).deep_view().entries, old(self).ui_turn),
                ..old(self).deep_view()
            }),
            final(self).entries@.len() > 0,
    {
        let n: usize = self.entries.len();
        let ghost before = self.entries.deep_view();
        if n > 0 {
            assert(before.last() == self.entries@[n - 1].deep_view());
        }
        let open: bool = n > 0 && self.entries[n - 1].role == Role::Assistant && !self.entries[n
            - 1].done;
        if !open {
            let none: Vec<MsgBlock> = Vec::new();
            assert(none.deep_view() =~= Seq::<BlockView>::empty());
            let e: ChatEntry = make_entry(Role::Assistant, none, false, self.ui_turn);
            push_entry(&mut self.entries, e);
        }
        assert(self.entries.deep_view().len() == self.entries@.len());
    }

    fn push_block(&mut self, b: MsgBlock)
        requires
            old(self).entries@.len() > 0,
        ensures
            final(self).deep_view() == (ChatState {
                entries: on_last(
                    old(self).deep_view().entries,
                    old(self).deep_view().entries.last().blocks.push(b.deep_view()),
                ),
                ..old(self).deep_view()
            }),
    {
        let n: usize = self.entries.len();
        let ghost before = self.entries.deep_view();
        let ghost blocks = self.entries@[n - 1].blocks.deep_view();
        assert(before.last() == self.entries@[n - 1].deep_view());
        self.entries[n - 1].blocks.push(b);
        assert(self.entries@[n - 1].blocks.deep_view() =~= blocks.push(b.deep_view()));
        assert(self.entries.deep_view() =~= on_last(before, blocks.push(b.deep_view())));
    }

    fn push_text(&mut self, piece: &str)
        requires
            old(self).entries@.len() > 0,
        ensures
            final(self).deep_view() == (ChatState {
                entries: on_last(
                    old(self).deep_view().entries,
                    more_text(old(self).deep_view().entries.last().blocks, piece@),
                ),
                ..old(self).deep_view()
            }),
    {
        let n: usize = self.entries.len();
        let ghost before = self.entries.deep_view();
        let ghost blocks = self.entries@[n - 1].blocks.deep_view();
        assert(before.last() == self.entries@[n - 1].deep_view());
        let m: usize = self.entries[n - 1].blocks.len();
        let mut grows: bool = false;
        if m > 0 {
            assert(blocks.last() == self.entries@[n - 1].blocks@[m - 1].deep_view());
            grows = match &self.entries[n - 1].blocks[m - 1] {
                MsgBlock::Text(_) => true,
                _ => false,
            };
        }
        if grows {
            match &mut self.entries[n - 1].blocks[m - 1] {
                MsgBlock::Text(t) => {
                    t.append(piece);
                },
                _ => {},
            }
            assert(self.entries@[n - 1].blocks.deep_view() =~= more_text(blocks, piece@));
            assert(self.entries.deep_view() =~= on_last(before, more_text(blocks, piece@)));
        } else {
            self.push_block(MsgBlock::Text(piece.to_owned()));
        }
    }

    fn push_reasoning(&mut self, piece: &str)
        requires
            old(self).entries@.len() > 0,
        ensures
            final(self).deep_view() == (ChatState {
                entries: on_last(
                    old(self).deep_view().entries,
                    more_reasoning(old(self).deep_view().entries.last().blocks, piece@),
                ),
                ..old(self).deep_view()
            }),
    {
        let n: usize = self.entries.len();
        let ghost before = self.entries.deep_view();
        let ghost blocks = self.entries@[n - 1].blocks.deep_view();
        assert(before.last() == self.entries@[n - 1].deep_view());
        let m: usize = self.entries[n - 1].blocks.len();
        let mut grows: bool = false;
        if m > 0 {
            assert(blocks.last() == self.entries@[n - 1].blocks@[m - 1].deep_view());
            grows = match &self.entries[n - 1].blocks[m - 1] {
                MsgBlock::Reasoning { .. } => true,
                _ => false,
            };
        }
        if grows {
            match &mut self.entries[n - 1].blocks[m - 1] {
                MsgBlock::Reasoning { text, .. } => {
                    text.append(piece);
                },
                _ => {},
            }
            assert(self.entries@[n - 1].blocks.deep_view() =~= more_reasoning(blocks, piece@));
            assert(self.entries.deep_view() =~= on_last(before, more_reasoning(blocks, piece@)));
        } else {
            self.push_block(MsgBlock::Reasoning { text: piece.to_owned(), open: false });
        }
    }
}

fn add_turn_usage(u: &mut TurnUsage, a: &Option<TokenUsage>)
    requires
        usage_after(old(u).deep_view(), *a).input_tokens <= u64::MAX,
        usage_after(old(u).deep_view(), *a).output_tokens <= u64::MAX,
        held(usage_after(old(u).deep_view(), *a).cache_read),
        held(usage_after(old(u).deep_view(), *a).cache_write),
        held(usage_after(old(u).deep_view(), *a).reasoning),
    ensures
        final(u).deep_view() == usage_after(old(u).deep_view(), *a),
{
    match a {
        Some(a) => {
            u.input_tokens = u.input_tokens + a.input_tokens;
            u.output_tokens = u.output_tokens + a.output_tokens;
            u.cache_read = add_known(u.cache_read, a.cache_read_tokens);
            u.cache_write = add_known(u.cache_write, a.cache_write_tokens);
            u.reasoning = add_known(u.reasoning, a.reasoning_tokens);
        },
        None => {},
    }
}

fn close_step(
    entries: &mut Vec<ChatEntry>,
    step: u64,
    ms: Option<Option<u64>>,
    usage: &Option<TokenUsage>,
)
    ensures
        ({
            let before = old(entries).deep_view();
            final(entries).deep_view() == (if before.len() > 0 {
                before.drop_last().push(step_closed(before.last(), step, ms, *usage))
            } else {
                before
            })
        }),
{
    let ghost before = entries.deep_view();
    match entries.pop() {
        Some(e) => {
            let mut e: ChatEntry = e;
            assert(before.last() == e.deep_view());
            assert(entries.deep_view() =~= before.drop_last());
            match ms {
                Some(ms) => {
                    e.step_duration_ms = ms;
                },
                None => {},
            }
            e.step = Some(step);
            if e.role == Role::Assistant && !e.done {
                e.done = true;
                if usage.is_some() {
                    e.usage = make_step_usage(usage);
                }
            }
            push_entry(entries, e);
        },
        None => {},
    }
}

/// The last entry of a turn that is over.
pub open spec fn turn_closed(
    e: EntryView,
    elapsed: Option<u64>,
    figures: UsageView,
    wall_ms: u64,
) -> EntryView {
    EntryView {
        done: true,
        elapsed_ns: elapsed,
        usage: if e.usage is None && figures.input_tokens + figures.output_tokens > 0 {
            Some(figures)
        } else {
            e.usage
        },
        ended_at_ms: Some(wall_ms),
        ..e
    }
}

fn close_turn(
    entries: &mut Vec<ChatEntry>,
    elapsed: Option<u64>,
    figures: TurnUsage,
    wall_ms: u64,
)
    requires
        figures.input_tokens + figures.output_tokens <= u64::MAX,
    ensures
        ({
            let before = old(entries).deep_view();
            final(entries).deep_view() == (if before.len() > 0 {
                before.drop_last().push(
                    turn_closed(before.last(), elapsed, figures.deep_view(), wall_ms),
                )
            } else {
                before
            })
        }),
{
    let ghost before = entries.deep_view();
    match entries.pop() {
        Some(e) => {
            let mut e: ChatEntry = e;
            assert(before.last() == e.deep_view());
            assert(entries.deep_view() =~= before.drop_last());
            e.done = true;
            e.elapsed_ns = elapsed;
            e.ended_at_ms = Some(wall_ms);
            if figures.total_tokens() > 0 && e.usage.is_none() {
                e.usage = Some(figures);
            }
            push_entry(entries, e);
        },
        None => {},
    }
}

impl ChatView {
    fn start_turn(&mut self, turn: u64, now: u64)
        requires
            after_turn_start(old(self).deep_view(), turn, now).fits(),
        ensures
            final(self).deep_view() == after_turn_start(old(self).deep_view(), turn, now),
    {
        self.stamp(turn);
        self.running = true;
        self.turn_started = Some(now);
        self.counts.turns = self.counts.turns + 1;
        self.ui_turn = turn;
        self.turn_open = Some(turn);
        self.turn_tool_ns = 0;
        self.turn_usage = TurnUsage::default();
        self.first_token = None;
        self.tool_starts = Vec::new();
        self.step_start = None;
        self.ui_step = 0;
        self.heights_dirty = false;
        assert(self.tool_starts.deep_view() =~= Seq::<(Seq<char>, u64)>::empty());
    }

    fn delta(&mut self, piece: &str, thought: bool, now: u64)
        ensures
            final(self).deep_view() == after_delta(old(self).deep_view(), piece@, thought, now),
    {
        if self.first_token.is_none() {
            self.first_token = Some(now);
        }
        if self.step_start.is_none() {
            self.step_start = Some(now);
        }
        self.open_answer();
        if thought {
            self.push_reasoning(piece);
        } else {
            self.push_text(piece);
        }
        self.heights_dirty = true;
    }

    fn call(&mut self, id: &String, name: &String, arguments: &String, now: u64)
        requires
            after_call(old(self).deep_view(), id@, name@, arguments@, now).fits(),
        ensures
            final(self).deep_view() == after_call(
                old(self).deep_view(),
                id@,
                name@,
                arguments@,
                now,
            ),
    {
        self.counts.tools = self.counts.tools + 1;
        if self.step_start.is_none() {
            self.step_start = Some(now);
        }
        assoc::remove_name(&mut self.tool_starts, id.as_str());
        let ghost rest = self.tool_starts.deep_view();
        self.tool_starts.push((id.clone(), now));
        assert(self.tool_starts.deep_view() =~= rest.push((id@, now)));
        self.open_answer();
        self.push_block(MsgBlock::Tool(make_tool(id, name, arguments)));
    }

    fn result(&mut self, id: &str, error: bool, result: &str, now: u64)
        requires
            after_result(old(self).deep_view(), id@, error, result@, now).fits(),
        ensures
            final(self).deep_view() == after_result(
                old(self).deep_view(),
                id@,
                error,
                result@,
                now,
            ),
    {
        let mut ms: Option<u64> = None;
        match assoc::find_name(&self.tool_starts, id) {
            Some(t) => {
                let ns: u64 = elapsed_since(t, now);
                ms = known_ms(ns);
                self.turn_tool_ns = self.turn_tool_ns + ns;
            },
            None => {},
        }
        assoc::remove_name(&mut self.tool_starts, id);
        attach_call_duration(&mut self.entries, id, ms);
        attach_tool_result(&mut self.entries, id, result, error);
    }

    fn answer(&mut self, usage: &Option<TokenUsage>, now: u64)
        requires
            after_answer(old(self).deep_view(), *usage, now).fits(),
        ensures
            final(self).deep_view() == after_answer(old(self).deep_view(), *usage, now),
    {
        self.ui_step = self.ui_step + 1;
        self.counts.add_answer(usage, 0);
        let ms: Option<Option<u64>> = match self.step_start {
            Some(t) => Some(known_ms(elapsed_since(t, now))),
            None => None,
        };
        self.step_start = None;
        add_turn_usage(&mut self.turn_usage, usage);
        close_step(&mut self.entries, self.ui_step, ms, usage);
    }

    fn figures(&self, now: u64) -> (r: TurnUsage)
        ensures
            r.deep_view() == turn_figures(self.deep_view(), now),
    {
        let mut r: TurnUsage = TurnUsage {
            input_tokens: self.turn_usage.input_tokens,
            output_tokens: self.turn_usage.output_tokens,
            cache_read: self.turn_usage.cache_read,
            cache_write: self.turn_usage.cache_write,
            reasoning: self.turn_usage.reasoning,
            run_ms: self.turn_usage.run_ms,
            llm_ms: self.turn_usage.llm_ms,
            ttft_ms: self.turn_usage.ttft_ms,
            route: self.route_label.clone(),
        };
        match (self.turn_started, self.first_token) {
            (Some(start), Some(first)) => {
                let total: u64 = elapsed_since(start, now);
                r.run_ms = total / 1000000;
                r.llm_ms = total.saturating_sub(self.turn_tool_ns) / 1000000;
                r.ttft_ms = Some(elapsed_since(start, first) / 1000000);
            },
            _ => {},
        }
        r
    }

    fn end_turn(&mut self, turn: u64, now: u64, wall_ms: u64)
        requires
            old(self).deep_view().fits(),
            after_turn_end(old(self).deep_view(), turn, now, wall_ms).fits(),
        ensures
            final(self).deep_view() == after_turn_end(old(self).deep_view(), turn, now, wall_ms),
    {
        let figures: TurnUsage = self.figures(now);
        let mut elapsed: Option<u64> = None;
        let mut llm: u64 = 0;
        match self.turn_started {
            Some(start) => {
                let total: u64 = elapsed_since(start, now);
                elapsed = Some(total);
                llm = total.saturating_sub(self.turn_tool_ns);
                self.llm_ns = self.llm_ns + llm;
                self.tool_ns = self.tool_ns + self.turn_tool_ns;
            },
            None => {},
        }
        match figures.ttft_ms {
            Some(ttft) => {
                self.ttft_sum_ms = self.ttft_sum_ms + ttft;
                self.ttft_steps = self.ttft_steps + 1;
                if elapsed.is_some() && llm / 1000000 > ttft {
                    self.decode_ms = self.decode_ms + (llm / 1000000 - ttft);
                    self.decode_tokens = self.decode_tokens + figures.output_tokens;
                }
            },
            None => {},
        }
        close_turn(&mut self.entries, elapsed, figures, wall_ms);
        self.running = false;
        self.turn_usage = TurnUsage::default();
        self.first_token = None;
        self.turn_started = None;
        self.turn_open = None;
        self.turn_expanded.remove(&turn);
    }

    /// Follows an event of the agent; says whether it changes more of the
    /// window, and what the list of rows is told. `session` holds the log, and
    /// `now` and `wall_ms` are the time on both clocks.
    pub fn apply_event(
        &mut self,
        ev: &AgentEvent,
        session: &Session,
        now: u64,
        wall_ms: u64,
    ) -> (r: (bool, ListSync))
        requires
            old(self).deep_view().fits(),
            after_event(old(self).deep_view(), *ev, session.entries@, now, wall_ms).fits(),
        ensures
            ({
                let shown = after_event(
                    old(self).deep_view(),
                    *ev,
                    session.entries@,
                    now,
                    wall_ms,
                );
                &&& final(self).deep_view() == synced(shown, shown.at_bottom)
                &&& r.0 == reaches_window(*ev)
                &&& r.1 == list_sync(shown, shown.at_bottom)
            }),
    {
        let mut app_level: bool = false;
        match ev {
            AgentEvent::TurnStarted { turn } => {
                self.start_turn(*turn, now);
                app_level = true;
            },
            AgentEvent::TextDelta { text } => {
                self.delta(text.as_str(), false, now);
            },
            AgentEvent::ReasoningDelta { text } => {
                self.delta(text.as_str(), true, now);
            },
            AgentEvent::ToolCall { tool_call_id, name, arguments } => {
                self.call(tool_call_id, name, arguments, now);
            },
            AgentEvent::ToolResult { tool_call_id, is_error } => {
                let found: (String, bool) = session::latest_tool_result_text(
                    session,
                    tool_call_id.as_str(),
                );
                self.result(tool_call_id.as_str(), *is_error, found.0.as_str(), now);
            },
            AgentEvent::AssistantMessage { usage, .. } => {
                self.answer(usage, now);
                app_level = true;
            },
            AgentEvent::TurnEnded { turn, .. } => {
                self.end_turn(*turn, now, wall_ms);
                app_level = true;
            },
            AgentEvent::Error { message, .. } => {
                self.running = false;
                self.turn_started = None;
                let e: ChatEntry = make_entry(
                    Role::Error,
                    one_text(message.clone()),
                    true,
                    self.ui_turn,
                );
                push_entry(&mut self.entries, e);
                app_level = true;
            },
            AgentEvent::Compacted { .. } => {
                let none: Vec<MsgBlock> = Vec::new();
                assert(none.deep_view() =~= Seq::<BlockView>::empty());
                let e: ChatEntry = make_entry(Role::Notice, none, true, self.ui_turn);
                push_entry(&mut self.entries, e);
            },
        }
        assert(self.deep_view().entries.len() == self.entries@.len());
        let near: bool = self.at_bottom;
        (app_level, self.sync_chat_list(near))
    }

    /// Adds a user's message: its attachments, then its text where it has one.
    pub fn push_user_entry_with(&mut self, text: Option<String>, attachments: Vec<ChatAttachment>) -> (r:
        ListSync)
        requires
            old(self).entries@.len() + 1 < usize::MAX,
        ensures
            ({
                let s = old(self).deep_view();
                let shown = ChatState {
                    entries: s.entries.push(
                        bare_entry(
                            Role::User,
                            user_blocks(attachments@, text.deep_view()),
                            true,
                            s.ui_turn,
                        ),
                    ),
                    ..s
                };
                &&& final(self).deep_view() == synced(shown, true)
                &&& r == list_sync(shown, true)
            }),
    {
        let mut blocks: Vec<MsgBlock> = Vec::new();
        let ghost all = attachments@;
        for a in it: attachments
            invariant
                it.seq() == all,
                blocks@.len() == it.index(),
                forall|i: int|
                    0 <= i < it.index() ==> #[trigger] blocks@[i] == MsgBlock::Attachment(all[i]),
        {
            blocks.push(MsgBlock::Attachment(a));
        }
        assert(blocks.deep_view() =~= user_blocks(all, None));
        let ghost before = blocks.deep_view();
        match text {
            Some(t) => {
                blocks.push(MsgBlock::Text(t));
                assert(blocks.deep_view() =~= before.push(BlockView::Text(t@)));
            },
            None => {},
        }
        let e: ChatEntry = make_entry(Role::User, blocks, true, self.ui_turn);
        push_entry(&mut self.entries, e);
        assert(self.entries.deep_view().len() == self.entries@.len());
        assert(old(self).entries.deep_view().len() == old(self).entries@.len());
        self.sync_chat_list(true)
    }

    /// Adds context that was put in.
    pub fn push_context_entry(&mut self, info: ContextInfo, text: String) -> (r: ListSync)
        requires
            old(self).entries@.len() + 1 < usize::MAX,
        ensures
            ({
                let s = old(self).deep_view();
                let shown = ChatState {
                    entries: s.entries.push(
                        EntryView {
                            context: Some(info.deep_view()),
                            ..bare_entry(
                                Role::Context,
                                seq![BlockView::Text(text@)],
                                true,
                                s.ui_turn,
                            )
                        },
                    ),
                    ..s
                };
                &&& final(self).deep_view() == synced(shown, false)
                &&& r == list_sync(shown, false)
            }),
    {
        let mut e: ChatEntry = make_entry(Role::Context, one_text(text), true, self.ui_turn);
        e.context = Some(info);
        push_entry(&mut self.entries, e);
        assert(self.entries.deep_view().len() == self.entries@.len());
        assert(old(self).entries.deep_view().len() == old(self).entries@.len());
        self.sync_chat_list(false)
    }
}

/// The parts of a user's message: its attachments, then its text where it has
/// one.
pub open spec fn user_blocks(attachments: Seq<ChatAttachment>, text: Option<Seq<char>>) -> Seq<
    BlockView,
> {
    let cards = Seq::new(
        attachments.len(),
        |i: int| MsgBlock::Attachment(attachments[i]).deep_view(),
    );
    match text {
        Some(t) => cards.push(BlockView::Text(t)),
        None => cards,
    }
}

// ---------------------------------------------------------------------------
// laws
// ---------------------------------------------------------------------------

/// A replay agrees with the boundaries of the log: the same latest turn, and a
/// turn left open exactly where the boundaries hold one.
pub proof fn replay_agrees_with_boundaries(entries: Seq<SessionEntry>, root: Option<Seq<char>>)
    ensures
        replay(entries, root).turn == crate::boundary::boundary_of(entries).last_turn,
        replay(entries, root).unfinished
            == crate::boundary::boundary_of(entries).open_turn_start_seq is Some,
    decreases entries.len(),
{
    if entries.len() > 0 {
        replay_agrees_with_boundaries(entries.drop_last(), root);
    }
}

/// Replaying a log event by event is replaying it whole.
pub proof fn replay_goes_event_by_event(
    entries: Seq<SessionEntry>,
    e: SessionEntry,
    root: Option<Seq<char>>,
)
    ensures
        replay(entries.push(e), root) == replay_step(replay(entries, root), root, e.event),
{
    assert(entries.push(e).drop_last() =~= entries);
}

/// A step that is followed as it happens leaves the entry that a replay of its
/// answer leaves, but for how long it took.
pub proof fn live_step_matches_replay(
    s: ChatState,
    r: ReplayView,
    message: Seq<ContentBlock>,
    piece: String,
    usage: Option<TokenUsage>,
    time_ms: Option<u64>,
    then: u64,
    now: u64,
)
    requires
        message == seq![ContentBlock::Text { text: piece }],
        piece@.len() > 0,
        s.entries.len() > 0 ==> s.entries.last().role != Role::Assistant || s.entries.last().done,
        r.turn == s.ui_turn,
        s.ui_step < u64::MAX,
    ensures
        ({
            let live = after_answer(after_delta(s, piece@, false, then), usage, now);
            let told = answer_entries(r, message, usage, (s.ui_step + 1) as u64, time_ms);
            &&& live.entries.len() == s.entries.len() + 1
            &&& told.len() == 1
            &&& (EntryView {
                step_duration_ms: told[0].step_duration_ms,
                ..live.entries.last()
            }) == told[0]
        }),
{
    reveal_with_fuel(answer_blocks, 2);
    let e = ContentBlock::Text { text: piece };
    assert(message.drop_last() =~= Seq::<ContentBlock>::empty());
    assert(message.last() == e);
    assert(answer_blocks(message) =~= seq![BlockView::Text(piece@)]);
    let opened = s.entries.push(bare_entry(Role::Assistant, Seq::empty(), false, s.ui_turn));
    assert(with_open_answer(s.entries, s.ui_turn) == opened);
    let first = after_delta(s, piece@, false, then);
    assert(more_text(Seq::<BlockView>::empty(), piece@) =~= seq![BlockView::Text(piece@)]);
    assert(first.entries == opened.drop_last().push(
        EntryView { blocks: seq![BlockView::Text(piece@)], ..opened.last() },
    ));
    let live = after_answer(first, usage, now);
    assert(live.entries.last() == step_closed(
        first.entries.last(),
        (s.ui_step + 1) as u64,
        match first.step_start {
            Some(t) => Some(some_ms(since(t, now))),
            None => None,
        },
        usage,
    ));
}

proof fn lemma_stamped_len(entries: Seq<EntryView>, turn: u64)
    ensures
        stamped(entries, turn).len() == entries.len(),
        forall|i: int|
            0 <= i < entries.len() ==> (#[trigger] stamped(entries, turn)[i] == entries[i] || (
            stamped(entries, turn)[i] == EntryView { turn, ..entries[i] } && waits(
                entries[i],
                turn,
            ))),
    decreases entries.len(),
{
    if entries.len() > 0 && waits(entries.last(), turn) {
        lemma_stamped_len(entries.drop_last(), turn);
        assert forall|i: int| 0 <= i < entries.len() implies (
            #[trigger] stamped(entries, turn)[i] == entries[i] || (stamped(entries, turn)[i]
                == EntryView { turn, ..entries[i] } && waits(entries[i], turn))) by {
            if i < entries.len() - 1 {
                assert(entries.drop_last()[i] == entries[i]);
                assert(stamped(entries.drop_last(), turn)[i] == stamped(entries, turn)[i]);
            }
        }
    }
}

/// No event takes an entry away, and what stands before the last entry stays:
/// only the start of a turn changes it, and then only the turn of entries that
/// waited for it.
pub proof fn events_keep_what_was_said(
    s: ChatState,
    ev: AgentEvent,
    log: Seq<SessionEntry>,
    now: u64,
    wall_ms: u64,
    i: int,
)
    requires
        0 <= i < s.entries.len() - 1,
    ensures
        ({
            let next = after_event(s, ev, log, now, wall_ms);
            &&& s.entries.len() <= next.entries.len()
            &&& next.entries[i] == s.entries[i] || (ev matches AgentEvent::TurnStarted { turn }
                && waits(s.entries[i], turn) && next.entries[i] == EntryView {
                turn,
                ..s.entries[i]
            })
        }),
{
    if let AgentEvent::TurnStarted { turn } = ev {
        lemma_stamped_len(s.entries, turn);
        assert(stamped(s.entries, turn)[i] == s.entries[i] || (stamped(s.entries, turn)[i]
            == EntryView { turn, ..s.entries[i] } && waits(s.entries[i], turn)));
    }
}

/// While it only grows, the list of rows is never built anew: it is told what
/// was added, and the numbers agree.
pub proof fn growing_list_is_not_reset(s: ChatState, force: bool)
    requires
        !s.reset_pending,
        s.items <= s.rows(),
        s.rows() <= usize::MAX,
    ensures
        list_sync(s, force).reset is None,
        list_sync(s, force).insert matches Some((at, n)) ==> at == s.items && at + n == s.rows(),
        list_sync(s, force).insert is None ==> s.items == s.rows(),
        synced(s, force).items == synced(s, force).rows(),
{
}

proof fn lemma_result_at(
    blocks: Seq<BlockView>,
    id: Seq<char>,
    result: Seq<char>,
    error: bool,
    k: int,
)
    requires
        0 <= k < blocks.len(),
        is_call(blocks[k], id),
        forall|j: int| k < j < blocks.len() ==> !is_call(#[trigger] blocks[j], id),
    ensures
        with_result(blocks, id, result, error) == blocks.update(
            k,
            answered(blocks[k], result, error),
        ),
{
    lemma_with_result_tail(blocks, id, result, error, k + 1);
    let head = blocks.take(k + 1);
    assert(head.last() == blocks[k]);
    assert(with_result(blocks, id, result, error) =~= blocks.update(
        k,
        answered(blocks[k], result, error),
    ));
}

/// Whether `after` is the entries with the call at `k` of the last of them
/// answered: it has the result and the mark, and all else is as it was, but for
/// how long calls took.
pub open spec fn call_answered(
    before: Seq<EntryView>,
    after: Seq<EntryView>,
    k: int,
    result: Seq<char>,
    failed: bool,
) -> bool {
    let old = before.last().blocks;
    let new = after.last().blocks;
    &&& after.len() == before.len()
    &&& forall|i: int| 0 <= i < before.len() - 1 ==> after[i] == #[trigger] before[i]
    &&& after.last() == EntryView { blocks: new, ..before.last() }
    &&& new.len() == old.len()
    &&& (new[k] matches BlockView::Tool(t) && t.result == Some(result) && t.error == failed && t.id
        == old[k]->Tool_0.id && t.name == old[k]->Tool_0.name && t.arguments
        == old[k]->Tool_0.arguments)
    &&& forall|j: int|
        0 <= j < old.len() && j != k ==> (#[trigger] new[j] == old[j] || (old[j] is Tool
            && new[j] is Tool && new[j]->Tool_0 == ToolView {
            duration_ms: new[j]->Tool_0.duration_ms,
            ..old[j]->Tool_0
        }))
}

/// A replayed result goes to the last call with its id in the last entry, with
/// its text, and the call counts as failed exactly where the result says so;
/// the log says the same of the call.
pub proof fn replayed_result_is_attached(
    log: Seq<SessionEntry>,
    s: ReplayView,
    root: Option<Seq<char>>,
    e: SessionEntry,
    message: Message,
    id: String,
    content: Vec<session::ResultPart>,
    is_error: Option<bool>,
    k: int,
)
    requires
        e.event matches SessionEvent::ToolResult { message: m, .. } && m == message,
        message.content@.len() > 0,
        message.content@[0] == (ContentBlock::ToolResult { tool_call_id: id, content, is_error }),
        s.entries.len() > 0,
        0 <= k < s.entries.last().blocks.len(),
        s.entries.last().blocks[k] matches BlockView::Tool(t) && t.id == id@,
        forall|j: int|
            k < j < s.entries.last().blocks.len() ==> !((#[trigger] s.entries.last().blocks[j])
                is Tool && s.entries.last().blocks[j]->Tool_0.id == id@),
    ensures
        call_answered(
            s.entries,
            replay_step(s, root, e.event).entries,
            k,
            session::result_text(content@),
            is_error == Some(true),
        ),
        replay_step(s, root, e.event).counts == s.counts,
        replay_step(s, root, e.event).entries.last().blocks[k]->Tool_0.result == Some(
            session::latest_result(log.push(e), id@).0,
        ),
        replay_step(s, root, e.event).entries.last().blocks[k]->Tool_0.error
            == session::latest_result(log.push(e), id@).1,
{
    let blocks = s.entries.last().blocks;
    let result = session::result_text(content@);
    assert forall|j: int| k < j < blocks.len() implies !is_call(#[trigger] blocks[j], id@) by {
        assert(blocks[j] == s.entries.last().blocks[j]);
    }
    lemma_result_at(blocks, id@, result, is_error == Some(true), k);
    session::latest_result_counts(
        log.push(e),
        id@,
        log.len() as int,
        message,
        id,
        content,
        is_error,
    );
}

/// A result that comes while a turn runs goes to the last call with its id in
/// the last entry, with the text that the log holds and the mark of the event.
pub proof fn live_result_is_attached(
    s: ChatState,
    log: Seq<SessionEntry>,
    id: String,
    is_error: bool,
    now: u64,
    wall_ms: u64,
    k: int,
)
    requires
        s.entries.len() > 0,
        0 <= k < s.entries.last().blocks.len(),
        s.entries.last().blocks[k] matches BlockView::Tool(t) && t.id == id@,
        forall|j: int|
            k < j < s.entries.last().blocks.len() ==> !((#[trigger] s.entries.last().blocks[j])
                is Tool && s.entries.last().blocks[j]->Tool_0.id == id@),
    ensures
        ({
            let next = after_event(
                s,
                AgentEvent::ToolResult { tool_call_id: id, is_error },
                log,
                now,
                wall_ms,
            );
            &&& call_answered(
                s.entries,
                next.entries,
                k,
                session::latest_result(log, id@).0,
                is_error,
            )
            &&& next.running == s.running
            &&& next.counts == s.counts
        }),
{
    let start = assoc::lookup(s.tool_starts, id@);
    let ms = match start {
        Some(t) => some_ms(since(t, now)),
        None => None,
    };
    let timed_entries = duration_attached(s.entries, id@, ms);
    let blocks = timed_entries.last().blocks;
    assert forall|j: int| k < j < blocks.len() implies !is_call(#[trigger] blocks[j], id@) by {
        assert(!(s.entries.last().blocks[j] is Tool && s.entries.last().blocks[j]->Tool_0.id
            == id@));
    }
    lemma_result_at(blocks, id@, session::latest_result(log, id@).0, is_error, k);
}

/// What an answer shows goes part by part: two halves of an answer show what
/// each of them shows.
pub proof fn answer_is_shown_part_by_part(a: Seq<ContentBlock>, b: Seq<ContentBlock>)
    ensures
        answer_blocks(a + b) == answer_blocks(a) + answer_blocks(b),
    decreases b.len(),
{
    if b.len() == 0 {
        assert(a + b =~= a);
        assert(answer_blocks(a) + answer_blocks(b) =~= answer_blocks(a));
    } else {
        answer_is_shown_part_by_part(a, b.drop_last());
        assert((a + b).drop_last() =~= a + b.drop_last());
        assert((a + b).last() == b.last());
        assert(answer_blocks(a + b) =~= answer_blocks(a) + answer_blocks(b));
    }
}

/// An answer shows every call that it makes: the calls of the entry are those
/// of the message, one for one, with their ids, names and arguments, and none
/// has a result yet.
pub proof fn answer_shows_its_calls(content: Seq<ContentBlock>, k: int)
    ensures
        crate::fold::calls_in(answer_blocks(content)).len() == agent::calls_in(content).len(),
        0 <= k < agent::calls_in(content).len() ==> ({
            let shown = crate::fold::calls_in(answer_blocks(content))[k];
            let made = agent::calls_in(content)[k];
            shown.id == made.0@ && shown.name == made.1@ && shown.arguments == made.2@
                && shown.result is None && !shown.error
        }),
    decreases content.len(),
{
    if content.len() > 0 {
        let head = content.drop_last();
        answer_shows_its_calls(head, k);
        let shown = answer_blocks(head);
        match content.last() {
            ContentBlock::Text { text } => {
                if text@.len() > 0 {
                    assert(shown.push(BlockView::Text(text@)).drop_last() =~= shown);
                }
            },
            ContentBlock::Reasoning { text } => {
                assert(shown.push(
                    BlockView::Reasoning { text: text@, open: false },
                ).drop_last() =~= shown);
            },
            ContentBlock::ToolCall { id, name, arguments } => {
                let t = fresh_tool(id@, name@, arguments@);
                assert(shown.push(BlockView::Tool(t)).drop_last() =~= shown);
            },
            _ => {},
        }
    }
}

/// An answer shows all that it says: the texts of the entry, one after the
/// other, are the text of the message, and its thoughts are those of the
/// message.
pub proof fn answer_shows_what_it_says(content: Seq<ContentBlock>)
    ensures
        text::joined(crate::ledger::texts_in(answer_blocks(content)), ""@) == session::plain_text(content),
        crate::ledger::thoughts_in(answer_blocks(content)) == content.filter(
            |b: ContentBlock| b is Reasoning,
        ).map_values(|b: ContentBlock| b->Reasoning_text@),
    decreases content.len(),
{
    reveal(Seq::filter);
    let thoughts = |b: ContentBlock| b is Reasoning;
    let thought = |b: ContentBlock| b->Reasoning_text@;
    if content.len() > 0 {
        let head = content.drop_last();
        let last = content.last();
        answer_shows_what_it_says(head);
        session::text_of_a_message_goes_on(head, last);
        assert(head.push(last) =~= content);
        let shown = answer_blocks(head);
        match last {
            ContentBlock::Text { text } => {
                let texts = crate::ledger::texts_in(shown);
                if text@.len() > 0 {
                    assert(shown.push(BlockView::Text(text@)).drop_last() =~= shown);
                    text::joining_without_a_gap(texts, seq![text@]);
                    assert(texts + seq![text@] =~= texts.push(text@));
                } else {
                    assert(session::plain_text(head) + text@ =~= session::plain_text(head));
                }
            },
            ContentBlock::Reasoning { text } => {
                assert(shown.push(
                    BlockView::Reasoning { text: text@, open: false },
                ).drop_last() =~= shown);
                assert(head.filter(thoughts).push(last).map_values(thought) =~= head.filter(
                    thoughts,
                ).map_values(thought).push(text@));
            },
            ContentBlock::ToolCall { id, name, arguments } => {
                let t = fresh_tool(id@, name@, arguments@);
                assert(shown.push(BlockView::Tool(t)).drop_last() =~= shown);
            },
            _ => {},
        }
        if !(last is Text) {
            assert(session::plain_text(head) + Seq::<char>::empty() =~= session::plain_text(head));
        }
    }
    assert(crate::ledger::thoughts_in(answer_blocks(content)) =~= content.filter(thoughts).map_values(
        thought,
    ));
}

/// A replayed answer becomes one entry of its turn and step with its parts and
/// its figures, and none where it shows nothing; it counts as a step, with its
/// calls and its tokens.
pub proof fn replayed_answer_is_an_entry(
    s: ReplayView,
    root: Option<Seq<char>>,
    turn: u64,
    step: u64,
    message: Message,
    interrupted: bool,
    usage: Option<TokenUsage>,
    time_ms: Option<u64>,
)
    ensures
        ({
            let next = replay_step(
                s,
                root,
                SessionEvent::AssistantMessage { turn, step, message, interrupted, usage, time_ms },
            );
            let shown = answer_blocks(message.content@);
            &&& shown.len() == 0 ==> next.entries == s.entries
            &&& shown.len() > 0 ==> ({
                let e = next.entries.last();
                &&& next.entries.len() == s.entries.len() + 1
                &&& next.entries.drop_last() == s.entries
                &&& e.role == Role::Assistant
                &&& e.done
                &&& e.blocks == shown
                &&& e.turn == s.turn
                &&& e.step == Some(step)
                &&& e.usage is Some == usage is Some
                &&& usage matches Some(u) ==> (e.usage->0).input_tokens == u.input_tokens
                    && (e.usage->0).output_tokens == u.output_tokens
                &&& next.last_answer == time_ms
            })
            &&& next.counts.steps == s.counts.steps + 1
            &&& next.counts.turns == s.counts.turns
            &&& next.counts.tools == s.counts.tools + message.content@.filter(
                |b: ContentBlock| b is ToolCall,
            ).len()
            &&& next.counts.input_tokens == s.counts.input_tokens + (match usage {
                Some(u) => u.input_tokens as nat,
                None => 0nat,
            })
            &&& next.counts.output_tokens == s.counts.output_tokens + (match usage {
                Some(u) => u.output_tokens as nat,
                None => 0nat,
            })
            &&& next.counts.cache_read == s.counts.cache_read + (match usage {
                Some(TokenUsage { cache_read_tokens: Some(n), .. }) => n as nat,
                _ => 0nat,
            })
            &&& next.counts.cache_write == s.counts.cache_write + (match usage {
                Some(TokenUsage { cache_write_tokens: Some(n), .. }) => n as nat,
                _ => 0nat,
            })
        }),
{
    agent::every_call_is_found(message.content@);
    let next = replay_step(
        s,
        root,
        SessionEvent::AssistantMessage { turn, step, message, interrupted, usage, time_ms },
    );
    if answer_blocks(message.content@).len() > 0 {
        assert(next.entries.drop_last() =~= s.entries);
    } else {
        assert(next.entries =~= s.entries);
    }
}

/// A replayed message becomes an entry that says what it says: context as
/// context, anything else as the user's, with what was attached before the
/// text; a message with neither adds nothing.
pub proof fn replayed_message_is_an_entry(s: ReplayView, root: Option<Seq<char>>, m: Message)
    ensures
        ({
            let next = replay_step(s, root, SessionEvent::UserMessage(m));
            let said = session::plain_text(m.content@);
            let attached = m.content@.filter(|b: ContentBlock| b is File || b is Image);
            let e = next.entries.last();
            &&& said.len() == 0 && attached.len() == 0 ==> next.entries == s.entries
            &&& said.len() > 0 || attached.len() > 0 ==> next.entries.drop_last() == s.entries
                && next.entries.len() == s.entries.len() + 1 && e.turn == s.turn && e.done && (
            e.role == Role::Context <==> m.source is Context) && (e.role == Role::User <==> !(
            m.source is Context)) && (e.context is Some <==> m.source is Context)
            &&& said.len() > 0 ==> e.blocks.len() > 0 && e.blocks.last() == BlockView::Text(said)
            &&& !(m.source is Context) && (said.len() > 0 || attached.len() > 0) ==> e.blocks.len()
                == attached.len() + (if said.len() > 0 {
                1int
            } else {
                0int
            })
            &&& next.counts == s.counts
        }),
{
    lemma_attached_count(m.content@, root);
    let next = replay_step(s, root, SessionEvent::UserMessage(m));
    assert(user_entries(m, root, s.turn).len() <= 1);
    if user_entries(m, root, s.turn).len() == 1 {
        assert(next.entries.drop_last() =~= s.entries);
    } else {
        assert(next.entries =~= s.entries);
    }
}

proof fn lemma_attached_count(content: Seq<ContentBlock>, root: Option<Seq<char>>)
    ensures
        attached_blocks(content, root).len() == content.filter(
            |b: ContentBlock| b is File || b is Image,
        ).len(),
    decreases content.len(),
{
    reveal(Seq::filter);
    if content.len() > 0 {
        lemma_attached_count(content.drop_last(), root);
    }
}

/// What is attached is shown part by part: a file with its name and size, an
/// image as a tile, and nothing else.
pub proof fn attachments_are_shown_one_by_one(
    content: Seq<ContentBlock>,
    b: ContentBlock,
    root: Option<Seq<char>>,
)
    ensures
        ({
            let before = attached_blocks(content, root);
            let after = attached_blocks(content.push(b), root);
            &&& b matches ContentBlock::File { name, bytes, .. } ==> after == before.push(
                BlockView::FileCard { name: name@, bytes },
            )
            &&& b is Image ==> after.drop_last() == before && after.len() == before.len() + 1
                && after.last() is ImageTile
            &&& !(b is File || b is Image) ==> after == before
        }),
{
    assert(content.push(b).drop_last() =~= content);
    if b is Image {
        let before = attached_blocks(content, root);
        let after = attached_blocks(content.push(b), root);
        assert(after.drop_last() =~= before);
    }
}

/// A turn that failed is shown as an error that names the code and ends with
/// the message; a turn that did not fail shows nothing.
pub proof fn failed_turn_is_shown(
    s: ReplayView,
    root: Option<Seq<char>>,
    turn: u64,
    reason: TurnEndReason,
)
    ensures
        ({
            let next = replay_step(s, root, SessionEvent::TurnEnd { turn, reason });
            &&& !next.unfinished
            &&& !(reason is Error) ==> next.entries == s.entries
            &&& reason matches TurnEndReason::Error(f) ==> next.entries.drop_last() == s.entries
                && next.entries.len() == s.entries.len() + 1 && next.entries.last().role
                == Role::Error && next.entries.last().turn == s.turn
                && next.entries.last().blocks.len() == 1 && (
            next.entries.last().blocks[0] matches BlockView::Text(t) && text::finishes(
                t,
                f.message@,
            ) && text::stands_at(t, f.code@, 1) && t.len() == f.code@.len() + f.message@.len() + 3)
        }),
{
    let next = replay_step(s, root, SessionEvent::TurnEnd { turn, reason });
    if let TurnEndReason::Error(f) = reason {
        reveal_strlit("[");
        reveal_strlit("] ");
        let t = failure_text(f.code@, f.message@);
        assert(t.skip(t.len() - f.message@.len()) =~= f.message@);
        assert(t.subrange(1, 1int + f.code@.len()) =~= f.code@);
        assert(next.entries.drop_last() =~= s.entries);
    }
}

/// The counts of a replayed log are those of its rows: a turn for each start
/// and a step for each answer.
pub proof fn counts_are_those_of_the_log(entries: Seq<SessionEntry>, root: Option<Seq<char>>)
    ensures
        replay(entries, root).counts.turns == entries.filter(
            |e: SessionEntry| e.event is TurnStart,
        ).len(),
        replay(entries, root).counts.steps == entries.filter(
            |e: SessionEntry| e.event is AssistantMessage,
        ).len(),
    decreases entries.len(),
{
    reveal(Seq::filter);
    if entries.len() > 0 {
        counts_are_those_of_the_log(entries.drop_last(), root);
    }
}

/// Replaying takes nothing back: what was shown stays, and only the last entry
/// changes, by the results of its calls.
pub proof fn replay_keeps_what_was_shown(
    s: ReplayView,
    root: Option<Seq<char>>,
    e: SessionEvent,
    i: int,
)
    requires
        0 <= i < s.entries.len(),
    ensures
        ({
            let next = replay_step(s, root, e);
            &&& s.entries.len() <= next.entries.len()
            &&& i < s.entries.len() - 1 || !(e is ToolResult) ==> next.entries[i] == s.entries[i]
            &&& next.entries[i] == EntryView {
                blocks: next.entries[i].blocks,
                ..s.entries[i]
            }
        }),
{
}

/// Text that streams in goes to the end of what the answer said, and a thought
/// to the end of its thoughts; nothing else of the answer changes.
pub proof fn streamed_pieces_are_added(s: ChatState, piece: Seq<char>, now: u64)
    ensures
        ({
            let before = with_open_answer(s.entries, s.ui_turn).last().blocks;
            let told = after_delta(s, piece, false, now).entries;
            let thought = after_delta(s, piece, true, now).entries;
            &&& text::joined(crate::ledger::texts_in(told.last().blocks), ""@) == text::joined(
                crate::ledger::texts_in(before),
                ""@,
            ) + piece
            &&& crate::ledger::thoughts_in(told.last().blocks) == crate::ledger::thoughts_in(before)
            &&& text::joined(crate::ledger::thoughts_in(thought.last().blocks), ""@)
                == text::joined(crate::ledger::thoughts_in(before), ""@) + piece
            &&& crate::ledger::texts_in(thought.last().blocks) == crate::ledger::texts_in(before)
            &&& crate::fold::calls_in(told.last().blocks) == crate::fold::calls_in(before)
            &&& crate::fold::calls_in(thought.last().blocks) == crate::fold::calls_in(before)
            &&& told.last().role == Role::Assistant
            &&& !told.last().done
            &&& thought.last().role == Role::Assistant
        }),
{
    let before = with_open_answer(s.entries, s.ui_turn).last().blocks;
    lemma_more_text(before, piece);
    lemma_more_reasoning(before, piece);
}

proof fn lemma_more_text(blocks: Seq<BlockView>, piece: Seq<char>)
    ensures
        text::joined(crate::ledger::texts_in(more_text(blocks, piece)), ""@) == text::joined(
            crate::ledger::texts_in(blocks),
            ""@,
        ) + piece,
        crate::ledger::thoughts_in(more_text(blocks, piece)) == crate::ledger::thoughts_in(blocks),
        crate::fold::calls_in(more_text(blocks, piece)) == crate::fold::calls_in(blocks),
{
    let texts = crate::ledger::texts_in(blocks);
    let after = more_text(blocks, piece);
    if blocks.len() > 0 && blocks.last() is Text {
        let old = blocks.last()->Text_0;
        let head = crate::ledger::texts_in(blocks.drop_last());
        assert(after.drop_last() =~= blocks.drop_last());
        text::joining_without_a_gap(head, seq![old]);
        text::joining_without_a_gap(head, seq![old + piece]);
        assert(head + seq![old] =~= head.push(old));
        assert(head + seq![old + piece] =~= head.push(old + piece));
        assert(text::joined(head, ""@) + (old + piece) =~= text::joined(head, ""@) + old + piece);
    } else {
        assert(after.drop_last() =~= blocks);
        text::joining_without_a_gap(texts, seq![piece]);
        assert(texts + seq![piece] =~= texts.push(piece));
    }
}

proof fn lemma_more_reasoning(blocks: Seq<BlockView>, piece: Seq<char>)
    ensures
        text::joined(crate::ledger::thoughts_in(more_reasoning(blocks, piece)), ""@)
            == text::joined(crate::ledger::thoughts_in(blocks), ""@) + piece,
        crate::ledger::texts_in(more_reasoning(blocks, piece)) == crate::ledger::texts_in(blocks),
        crate::fold::calls_in(more_reasoning(blocks, piece)) == crate::fold::calls_in(blocks),
{
    let thoughts = crate::ledger::thoughts_in(blocks);
    let after = more_reasoning(blocks, piece);
    if blocks.len() > 0 && blocks.last() is Reasoning {
        let old = blocks.last()->Reasoning_text;
        let head = crate::ledger::thoughts_in(blocks.drop_last());
        assert(after.drop_last() =~= blocks.drop_last());
        text::joining_without_a_gap(head, seq![old]);
        text::joining_without_a_gap(head, seq![old + piece]);
        assert(head + seq![old] =~= head.push(old));
        assert(head + seq![old + piece] =~= head.push(old + piece));
        assert(text::joined(head, ""@) + (old + piece) =~= text::joined(head, ""@) + old + piece);
    } else {
        assert(after.drop_last() =~= blocks);
        text::joining_without_a_gap(thoughts, seq![piece]);
        assert(thoughts + seq![piece] =~= thoughts.push(piece));
    }
}

/// An answer that is open takes what comes; otherwise a new one is opened in
/// the turn that runs, and nothing that was said is lost.
pub proof fn open_answer_takes_what_comes(entries: Seq<EntryView>, turn: u64)
    ensures
        ({
            let after = with_open_answer(entries, turn);
            &&& after.last().role == Role::Assistant
            &&& !after.last().done
            &&& entries.len() > 0 && entries.last().role == Role::Assistant && !entries.last().done
                ==> after == entries
            &&& entries.len() == 0 || entries.last().role != Role::Assistant || entries.last().done
                ==> after.drop_last() == entries && after.len() == entries.len() + 1
                && after.last().blocks.len() == 0 && after.last().turn == turn
        }),
{
    let after = with_open_answer(entries, turn);
    if after.len() > entries.len() {
        assert(after.drop_last() =~= entries);
    }
}

/// A call that is made while a turn runs is shown at the end of the answer, as
/// a replay of the answer shows it, and it is counted.
pub proof fn live_call_matches_replay(
    s: ChatState,
    content: Seq<ContentBlock>,
    id: String,
    name: String,
    arguments: String,
    now: u64,
)
    requires
        with_open_answer(s.entries, s.ui_turn).last().blocks == answer_blocks(content),
    ensures
        ({
            let next = after_call(s, id@, name@, arguments@, now);
            &&& next.entries.last().blocks == answer_blocks(
                content.push(ContentBlock::ToolCall { id, name, arguments }),
            )
            &&& next.counts.tools == s.counts.tools + 1
            &&& crate::fold::calls_in(next.entries.last().blocks).last().id == id@
            &&& crate::fold::calls_in(next.entries.last().blocks).last().name == name@
            &&& crate::fold::calls_in(next.entries.last().blocks).last().arguments == arguments@
        }),
{
    let more = content.push(ContentBlock::ToolCall { id, name, arguments });
    assert(more.drop_last() =~= content);
}

/// The figures of an answer go three ways and agree: what it adds to the
/// session's counts is what it adds to the turn's, and what its entry shows.
pub proof fn figures_of_an_answer_agree(s: ChatState, u: TokenUsage, now: u64)
    requires
        s.entries.len() > 0,
        s.entries.last().role == Role::Assistant,
        !s.entries.last().done,
        s.ui_step < u64::MAX,
    ensures
        ({
            let next = after_answer(s, Some(u), now);
            let shown = next.entries.last().usage;
            &&& next.counts.steps == s.counts.steps + 1
            &&& next.counts.tools == s.counts.tools
            &&& next.counts.input_tokens - s.counts.input_tokens == u.input_tokens
            &&& next.counts.output_tokens - s.counts.output_tokens == u.output_tokens
            &&& next.turn_usage.input_tokens - s.turn_usage.input_tokens == u.input_tokens
            &&& next.turn_usage.output_tokens - s.turn_usage.output_tokens == u.output_tokens
            &&& shown is Some
            &&& (shown->0).input_tokens == u.input_tokens
            &&& (shown->0).output_tokens == u.output_tokens
            &&& u.cache_read_tokens matches Some(n) ==> next.counts.cache_read
                - s.counts.cache_read == n && next.turn_usage.cache_read is Some
                && (shown->0).cache_read == Some(n as nat)
            &&& u.cache_write_tokens matches Some(n) ==> next.counts.cache_write
                - s.counts.cache_write == n && next.turn_usage.cache_write is Some
                && (shown->0).cache_write == Some(n as nat)
            &&& u.reasoning_tokens matches Some(n) ==> (shown->0).reasoning == Some(n as nat)
            &&& next.entries.last().done
            &&& next.entries.last().step == Some((s.ui_step + 1) as u64)
            &&& next.entries.last().blocks == s.entries.last().blocks
            &&& next.ui_step == s.ui_step + 1
        }),
{
}

/// Counts add up as far as they are known.
pub proof fn known_counts_add_up(a: Option<nat>, b: Option<u64>)
    ensures
        sum_known(a, b) is None <==> a is None && b is None,
        sum_known(a, b) is Some ==> sum_known(a, b)->0 == (match a {
            Some(n) => n,
            None => 0nat,
        }) + (match b {
            Some(n) => n as nat,
            None => 0nat,
        }),
{
}

/// A turn that ends is closed: nothing runs, its last entry is done and says
/// when and after how long it ended. The time of the turn is that of the tools
/// and of the model together, where the tools did not take longer.
pub proof fn ended_turn_is_closed(s: ChatState, turn: u64, now: u64, wall_ms: u64, start: u64)
    requires
        s.turn_started == Some(start),
        start <= now,
        s.turn_tool_ns <= now - start,
    ensures
        ({
            let next = after_turn_end(s, turn, now, wall_ms);
            let figures = turn_figures(s, now);
            &&& !next.running
            &&& next.turn_started is None
            &&& next.turn_open is None
            &&& !next.turn_expanded.contains(turn)
            &&& (next.llm_ns - s.llm_ns) + (next.tool_ns - s.tool_ns) == now - start
            &&& next.tool_ns - s.tool_ns == s.turn_tool_ns
            &&& next.counts == s.counts
            &&& s.entries.len() > 0 ==> next.entries.len() == s.entries.len()
                && next.entries.last().done && next.entries.last().ended_at_ms == Some(wall_ms)
                && next.entries.last().elapsed_ns == Some((now - start) as u64)
                && next.entries.last().blocks == s.entries.last().blocks
            &&& s.first_token matches Some(first) ==> ({
                &&& figures.run_ms == (now - start) / 1000000
                &&& figures.llm_ms <= figures.run_ms
                &&& first <= now ==> (figures.ttft_ms->0) <= figures.run_ms
                &&& next.ttft_steps == s.ttft_steps + 1
                &&& next.ttft_sum_ms == s.ttft_sum_ms + figures.ttft_ms->0
            })
            &&& s.first_token is None && s.turn_usage.ttft_ms is None ==> next.ttft_steps
                == s.ttft_steps && next.decode_tokens == s.decode_tokens
            &&& figures.route == s.route_label
            &&& figures.input_tokens == s.turn_usage.input_tokens
            &&& figures.output_tokens == s.turn_usage.output_tokens
        }),
{
    if let Some(first) = s.first_token {
        let figures = turn_figures(s, now);
        let total = since(start, now);
        assert(total == now - start);
        assert(figures.run_ms == total / 1000000);
        assert(figures.llm_ms == ((total - s.turn_tool_ns) as nat) / 1000000);
        assert(figures.ttft_ms == Some(since(start, first) / 1000000));
        if first <= now {
            assert(since(start, first) <= total);
        }
    }
}

/// A turn that starts is open and running, its clock starts now, and its count
/// and the turn of what waited for it are set.
pub proof fn started_turn_runs(s: ChatState, turn: u64, now: u64)
    ensures
        ({
            let next = after_turn_start(s, turn, now);
            &&& next.running
            &&& next.turn_started == Some(now)
            &&& next.turn_open == Some(turn)
            &&& next.ui_turn == turn
            &&& next.ui_step == 0
            &&& next.counts.turns == s.counts.turns + 1
            &&& next.counts.steps == s.counts.steps
            &&& next.turn_usage.input_tokens == 0
            &&& next.turn_usage.output_tokens == 0
            &&& next.entries.len() == s.entries.len()
            &&& s.entries.len() > 0 && s.entries.last().role == Role::User && s.entries.last().turn
                < turn ==> next.entries.last() == EntryView { turn, ..s.entries.last() }
            &&& s.entries.len() > 0 && s.entries.last().role == Role::Assistant
                ==> next.entries == s.entries
        }),
{
    lemma_stamped_len(s.entries, turn);
}

/// An error is shown with its message and stops what runs; a summary of earlier
/// messages leaves a mark.
pub proof fn errors_and_summaries_are_shown(
    s: ChatState,
    message: String,
    code: String,
    shadowed_messages: usize,
    log: Seq<SessionEntry>,
    now: u64,
    wall_ms: u64,
)
    ensures
        ({
            let failed = after_event(s, AgentEvent::Error { message, code }, log, now, wall_ms);
            let summed = after_event(
                s,
                AgentEvent::Compacted { shadowed_messages },
                log,
                now,
                wall_ms,
            );
            &&& !failed.running
            &&& failed.entries.drop_last() == s.entries
            &&& failed.entries.last().role == Role::Error
            &&& failed.entries.last().blocks == seq![BlockView::Text(message@)]
            &&& failed.entries.last().turn == s.ui_turn
            &&& summed.running == s.running
            &&& summed.entries.drop_last() == s.entries
            &&& summed.entries.last().role == Role::Notice
        }),
{
    assert(s.entries.push(
        bare_entry(Role::Error, seq![BlockView::Text(message@)], true, s.ui_turn),
    ).drop_last() =~= s.entries);
    assert(s.entries.push(
        bare_entry(Role::Notice, Seq::empty(), true, s.ui_turn),
    ).drop_last() =~= s.entries);
}

/// A session whose turn still runs is taken up where its log stands: in that
/// turn, behind the last step that the log shows of it.
pub proof fn resumed_turn_goes_on(
    s: ChatState,
    now: u64,
    turn_start: Option<u64>,
    step_start: Option<u64>,
    turn: u64,
    i: int,
)
    requires
        s.unfinished_turn == Some(turn),
    ensures
        ({
            let next = resumed(s, now, turn_start, step_start);
            &&& next.running
            &&& next.ui_turn == turn
            &&& next.turn_open == Some(turn)
            &&& next.entries == s.entries
            &&& next.turn_started is Some
            &&& turn_start is Some ==> next.turn_started == turn_start
            &&& next.step_start == step_start
            &&& 0 <= i < s.entries.len() && s.entries[i].turn == turn && s.entries[i].step is Some
                ==> s.entries[i].step->0 <= next.ui_step
            &&& next.ui_step > 0 ==> exists|j: int|
                0 <= j < s.entries.len() && (#[trigger] s.entries[j]).turn == turn
                    && s.entries[j].step is Some && s.entries[j].step->0 == next.ui_step
        }),
{
    lemma_largest_step(s.entries, turn);
}

proof fn lemma_largest_step(entries: Seq<EntryView>, turn: u64)
    ensures
        forall|i: int|
            0 <= i < entries.len() && (#[trigger] entries[i]).turn == turn && entries[i].step
                is Some ==> entries[i].step->0 <= largest_step(entries, turn),
        largest_step(entries, turn) > 0 ==> exists|j: int|
            0 <= j < entries.len() && (#[trigger] entries[j]).turn == turn && entries[j].step
                is Some && entries[j].step->0 == largest_step(entries, turn),
    decreases entries.len(),
{
    if entries.len() > 0 {
        let head = entries.drop_last();
        lemma_largest_step(head, turn);
        assert forall|i: int|
            0 <= i < entries.len() && (#[trigger] entries[i]).turn == turn && entries[i].step
                is Some implies entries[i].step->0 <= largest_step(entries, turn) by {
            if i < head.len() {
                assert(head[i] == entries[i]);
            }
        }
        if largest_step(entries, turn) > 0 {
            let e = entries.last();
            if e.turn == turn && (e.step matches Some(n) && n > largest_step(head, turn)) {
                assert(entries[entries.len() - 1] == e);
            } else {
                let j = choose|j: int|
                    0 <= j < head.len() && (#[trigger] head[j]).turn == turn && head[j].step
                        is Some && head[j].step->0 == largest_step(head, turn);
                assert(entries[j] == head[j]);
            }
        }
    }
}

/// A rebuilt transcript shows what the replay of the log shows, and keeps
/// nothing of what was shown before.
pub proof fn rebuilt_transcript_is_the_replay(s: ChatState, t: ChatState, r: ReplayView)
    ensures
        rebuilt(s, r).entries == r.entries,
        rebuilt(s, r).counts == r.counts,
        rebuilt(s, r).ui_turn == r.turn,
        !rebuilt(s, r).running,
        rebuilt(s, r).reset_pending,
        rebuilt(s, r).unfinished_turn == (if r.unfinished {
            Some(r.turn)
        } else {
            None
        }),
        rebuilt(s, r).llm_ns == 0 && rebuilt(s, r).tool_ns == 0,
        rebuilt(s, r).entries == rebuilt(t, r).entries,
{
}

/// A time span leads from the one point to the other, and is given only where
/// both are known and it is more than nothing.
pub proof fn spans_lead_from_point_to_point(from: Option<u64>, to: Option<u64>, ns: u64)
    ensures
        window_ms(from, to) matches Some(ms) ==> from is Some && to is Some && ms > 0 && from->0
            + ms == to->0,
        from is Some && to is Some && to->0 > from->0 ==> window_ms(from, to) is Some,
        some_ms(ns as nat) matches Some(ms) ==> ms * 1000000 <= ns < (ms + 1) * 1000000 && ms > 0,
        ns >= 1000000 ==> some_ms(ns as nat) is Some,
{
}

/// A wall clock time that is known, past and within the clock stands as far
/// before now on the clock as it stands before now on the wall.
pub proof fn clocks_agree(t: u64, now: u64, wall_ms: u64)
    ensures
        clock_at(Some(t), now, wall_ms) matches Some(at) ==> t <= wall_ms && at <= now && now - at
            == (wall_ms - t) * 1000000,
        t <= wall_ms && (wall_ms - t) * 1000000 <= now ==> clock_at(Some(t), now, wall_ms) is Some,
        clock_at(None, now, wall_ms) is None,
{
}

/// What the user sends is shown with everything attached, in order, and the
/// text behind it.
pub proof fn sent_message_is_shown_whole(
    attachments: Seq<ChatAttachment>,
    words: Seq<char>,
    i: int,
)
    requires
        0 <= i < attachments.len(),
    ensures
        user_blocks(attachments, Some(words)).len() == attachments.len() + 1,
        user_blocks(attachments, Some(words)).last() == BlockView::Text(words),
        user_blocks(attachments, None).len() == attachments.len(),
        user_blocks(attachments, Some(words))[i] == user_blocks(attachments, None)[i],
        match attachments[i] {
            ChatAttachment::FileCard { name, bytes } => user_blocks(attachments, None)[i]
                == (BlockView::FileCard { name: name@, bytes }),
            ChatAttachment::ImageTile { path } => user_blocks(attachments, None)[i]
                == (BlockView::ImageTile { path: path.deep_view() }),
        },
{
}

/// Context names what it refers to: every label of a reference stands in the
/// label that is shown, a plugin and a skill go by their names, and what has no
/// name of its own goes by its kind.
pub proof fn context_names_its_origin(
    kind: Seq<char>,
    plugin: Option<Seq<char>>,
    changes: Seq<Seq<char>>,
    labels: Seq<Seq<char>>,
    name: Option<Seq<char>>,
    k: int,
)
    ensures
        ({
            let shown = context_label(kind, plugin, changes, labels, name);
            &&& (kind == "session-reference"@ || kind == "file-reference"@) && 0 <= k
                < labels.len() && text::trimmed(text::joined(labels, ", "@)).len() > 0 ==> shown
                is Some && text::holds_text(shown->0, labels[k])
            &&& kind == "agent-instructions"@ && 0 <= k < changes.len() && text::trimmed(
                text::joined(changes, ", "@),
            ).len() > 0 ==> shown is Some && text::holds_text(shown->0, changes[k])
            &&& kind == "plugin"@ && plugin is Some && (plugin->0).len() > 0 ==> shown == plugin
            &&& kind == "skill-invocation"@ && name is Some && (name->0).len() > 0 ==> shown == name
            &&& kind != "file-reference"@ && shown is None ==> false
            &&& kind == "plugin"@ && plugin is None ==> shown == Some(kind)
        }),
{
    reveal_strlit("session-reference");
    reveal_strlit("file-reference");
    reveal_strlit("agent-instructions");
    reveal_strlit("plugin");
    reveal_strlit("skill-invocation");
    assert("session-reference"@.len() == 17 && "file-reference"@.len() == 14);
    assert("agent-instructions"@.len() == 18 && "plugin"@.len() == 6);
    assert("skill-invocation"@.len() == 16);
    if 0 <= k < labels.len() {
        text::parts_stand_in_the_whole(labels, ", "@, k);
    }
    if 0 <= k < changes.len() {
        text::parts_stand_in_the_whole(changes, ", "@, k);
    }
}

/// The start of the latest step of a turn is the latest of its starts.
pub proof fn latest_start_is_the_latest(
    starts: Seq<(assoc::StepKey, u64)>,
    turn: u64,
    i: int,
)
    requires
        0 <= i < starts.len(),
        (starts[i].0).0 == turn,
    ensures
        latest_start(starts, turn) is Some,
        starts[i].1 <= latest_start(starts, turn)->0,
    decreases starts.len(),
{
    if i < starts.len() - 1 {
        latest_start_is_the_latest(starts.drop_last(), turn, i);
    }
}

} // verus!
