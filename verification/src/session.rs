//! Messages, the session log and what can be read off it.

use crate::fs;
use crate::json;
use crate::text;
use vstd::prelude::*;

verus! {

/// The token counts of one model answer.
#[derive(Clone, Copy, Debug, PartialEq, Eq, Structural)]
pub struct TokenUsage {
    pub input_tokens: u64,
    pub output_tokens: u64,
    pub cache_read_tokens: Option<u64>,
    pub cache_write_tokens: Option<u64>,
    pub reasoning_tokens: Option<u64>,
}

/// Why a request failed.
#[derive(Debug)]
pub struct Failure {
    pub code: String,
    pub message: String,
}

/// Why a turn is over.
#[derive(Debug)]
pub enum TurnEndReason {
    Completed,
    Blocked,
    MaxTokens,
    Aborted,
    Error(Failure),
}

/// A part of a tool result.
#[derive(Debug)]
pub enum ResultPart {
    Text(String),
    Other,
}

/// A part of a message.
#[derive(Debug)]
pub enum ContentBlock {
    Text { text: String },
    Reasoning { text: String },
    ToolCall { id: String, name: String, arguments: String },
    ToolResult { tool_call_id: String, content: Vec<ResultPart>, is_error: Option<bool> },
    File { name: String, bytes: u64, attachment_id: String },
    Image { attachment_id: String },
}

/// Who speaks.
#[derive(Clone, Copy, Debug, PartialEq, Eq, Structural)]
pub enum MessageRole {
    System,
    User,
    Assistant,
    Tool,
}

/// What a context message says of its origin.
#[derive(Debug)]
pub struct ContextSource {
    pub kind: String,
    pub plugin: Option<String>,
    pub summary: Option<String>,
    pub changes_paths: Vec<String>,
    pub reference_labels: Vec<String>,
    pub name: Option<String>,
}

/// Where a message comes from.
#[derive(Debug)]
pub enum MessageSource {
    User,
    Context(ContextSource),
    Plugin {
        plugin: String,
        form: Option<String>,
        summary: Option<String>,
        /// The sections that the message is made of.
        sections: Option<Vec<String>>,
    },
    Model { provider: String, model: String },
    Tool,
}

/// A message.
#[derive(Debug)]
pub struct Message {
    pub role: MessageRole,
    pub content: Vec<ContentBlock>,
    pub source: MessageSource,
}

/// A copy of why a turn is over.
pub fn copy_reason(reason: &TurnEndReason) -> (r: TurnEndReason)
    ensures
        r == *reason,
{
    match reason {
        TurnEndReason::Completed => TurnEndReason::Completed,
        TurnEndReason::Blocked => TurnEndReason::Blocked,
        TurnEndReason::MaxTokens => TurnEndReason::MaxTokens,
        TurnEndReason::Aborted => TurnEndReason::Aborted,
        TurnEndReason::Error(f) => TurnEndReason::Error(
            Failure { code: f.code.clone(), message: f.message.clone() },
        ),
    }
}

/// Whether two parts of a message say the same.
pub open spec fn same_block(a: ContentBlock, b: ContentBlock) -> bool {
    match (a, b) {
        (
            ContentBlock::ToolResult { tool_call_id, content, is_error },
            ContentBlock::ToolResult { tool_call_id: id, content: parts, is_error: failed },
        ) => tool_call_id == id && content@ == parts@ && is_error == failed,
        _ => a == b,
    }
}

/// Whether two messages are made of the same parts.
pub open spec fn same_content(a: Seq<ContentBlock>, b: Seq<ContentBlock>) -> bool {
    a.len() == b.len() && forall|i: int|
        0 <= i < a.len() ==> same_block(#[trigger] a[i], b[i])
}

fn copy_results(parts: &Vec<ResultPart>) -> (r: Vec<ResultPart>)
    ensures
        r@ == parts@,
{
    let mut out: Vec<ResultPart> = Vec::new();
    let mut i: usize = 0;
    while i < parts.len()
        invariant
            i <= parts@.len(),
            out@ == parts@.take(i as int),
        decreases parts@.len() - i,
    {
        let one: ResultPart = match &parts[i] {
            ResultPart::Text(s) => ResultPart::Text(s.clone()),
            ResultPart::Other => ResultPart::Other,
        };
        out.push(one);
        i = i + 1;
        assert(out@ =~= parts@.take(i as int));
    }
    assert(parts@.take(i as int) =~= parts@);
    out
}

fn copy_block(block: &ContentBlock) -> (r: ContentBlock)
    ensures
        same_block(r, *block),
{
    match block {
        ContentBlock::Text { text } => ContentBlock::Text { text: text.clone() },
        ContentBlock::Reasoning { text } => ContentBlock::Reasoning { text: text.clone() },
        ContentBlock::ToolCall { id, name, arguments } => ContentBlock::ToolCall {
            id: id.clone(),
            name: name.clone(),
            arguments: arguments.clone(),
        },
        ContentBlock::ToolResult { tool_call_id, content, is_error } => ContentBlock::ToolResult {
            tool_call_id: tool_call_id.clone(),
            content: copy_results(content),
            is_error: *is_error,
        },
        ContentBlock::File { name, bytes, attachment_id } => ContentBlock::File {
            name: name.clone(),
            bytes: *bytes,
            attachment_id: attachment_id.clone(),
        },
        ContentBlock::Image { attachment_id } => ContentBlock::Image {
            attachment_id: attachment_id.clone(),
        },
    }
}

/// A copy of the parts of a message.
pub fn copy_content(content: &Vec<ContentBlock>) -> (r: Vec<ContentBlock>)
    ensures
        same_content(r@, content@),
{
    let mut out: Vec<ContentBlock> = Vec::new();
    let mut i: usize = 0;
    while i < content.len()
        invariant
            i <= content@.len(),
            same_content(out@, content@.take(i as int)),
        decreases content@.len() - i,
    {
        let one: ContentBlock = copy_block(&content[i]);
        out.push(one);
        i = i + 1;
    }
    assert(content@.take(i as int) =~= content@);
    out
}

/// A piece of a streamed answer.
#[derive(Debug)]
pub enum StreamChunk {
    TextDelta(String),
    ReasoningDelta(String),
    Other,
}

/// Why the header of a request is written.
#[derive(Clone, Copy, Debug, PartialEq, Eq, Structural)]
pub enum HeaderReason {
    Initial,
    Change,
}

/// What a model is told of a tool.
#[derive(Debug)]
pub struct ToolSchema {
    pub name: String,
    pub description: String,
    /// The schema of its arguments, as JSON text.
    pub parameters: String,
}

/// The contents of what a model is told of a tool.
pub struct ToolSchemaView {
    pub name: Seq<char>,
    pub description: Seq<char>,
    pub parameters: Seq<char>,
}

impl DeepView for ToolSchema {
    type V = ToolSchemaView;

    open spec fn deep_view(&self) -> ToolSchemaView {
        ToolSchemaView {
            name: self.name@,
            description: self.description@,
            parameters: self.parameters@,
        }
    }
}

/// How a model is asked.
#[derive(Debug)]
pub struct CallConfig {
    pub provider: String,
    pub model: String,
    pub max_tokens: Option<u32>,
    /// The bits of the temperature, a floating-point number.
    pub temperature: Option<u64>,
}

/// The contents of how a model is asked.
pub struct CallConfigView {
    pub provider: Seq<char>,
    pub model: Seq<char>,
    pub max_tokens: Option<u32>,
    pub temperature: Option<u64>,
}

impl DeepView for CallConfig {
    type V = CallConfigView;

    open spec fn deep_view(&self) -> CallConfigView {
        CallConfigView {
            provider: self.provider@,
            model: self.model@,
            max_tokens: self.max_tokens,
            temperature: self.temperature,
        }
    }
}

/// How a model is asked and the tools it is told of. The system prompt has rows
/// of its own; only an older log has it here.
#[derive(Debug)]
pub struct RequestHeader {
    pub config: CallConfig,
    pub system: Option<String>,
    pub tools: Option<Vec<ToolSchema>>,
}

/// The contents of a header.
pub struct HeaderView {
    pub config: CallConfigView,
    pub system: Option<Seq<char>>,
    pub tools: Option<Seq<ToolSchemaView>>,
}

impl DeepView for RequestHeader {
    type V = HeaderView;

    open spec fn deep_view(&self) -> HeaderView {
        HeaderView {
            config: self.config.deep_view(),
            system: self.system.deep_view(),
            tools: self.tools.deep_view(),
        }
    }
}

/// What a summary of earlier messages records.
#[derive(Debug)]
pub struct Checkpoint {
    pub before_seq: u64,
    pub summary: String,
    pub id: String,
    pub first_seq: u64,
    pub shadowed_seqs: Vec<u64>,
    pub tokens: u64,
    pub provider: String,
    pub model: String,
}

/// An event of the session log.
pub enum SessionEvent {
    TurnStart { turn: u64 },
    TurnEnd { turn: u64, reason: TurnEndReason },
    StepStart { turn: u64, step: u64, time_ms: Option<u64> },
    StepEnd { turn: u64, step: u64 },
    UserMessage(Message),
    SystemMessage { turn: u64, step: u64, message: Message, replace: Option<u64> },
    AssistantChunk { turn: u64, step: u64, chunk: StreamChunk },
    AssistantMessage {
        turn: u64,
        step: u64,
        message: Message,
        interrupted: bool,
        usage: Option<TokenUsage>,
        time_ms: Option<u64>,
    },
    ToolCall { turn: u64, step: u64, call_id: String, name: String, arguments: String },
    ToolResult {
        turn: u64,
        step: u64,
        message: Message,
        time_ms: Option<u64>,
        presentation: Option<json::Json>,
    },
    Compaction(Checkpoint),
    RequestHeader { header: RequestHeader, reason: HeaderReason },
    SessionTitle { title: String },
    PermissionPreset { preset: String },
    SandboxModeSwitch { mode: String },
    ApprovalPolicy { policy: String },
}

/// An event with its place in the log.
pub struct SessionEntry {
    pub seq: u64,
    pub event: SessionEvent,
}

/// A session: its id and its log.
pub struct Session {
    pub id: String,
    pub entries: Vec<SessionEntry>,
}

impl Session {
    /// Whether the places of the log are numbered from 0 on without gaps.
    pub open spec fn dense(self) -> bool {
        forall|i: int| 0 <= i < self.entries@.len() ==> (#[trigger] self.entries@[i]).seq == i
    }

    /// A session with an empty log.
    pub fn new(id: String) -> (r: Self)
        ensures
            r.id == id,
            r.entries@ == Seq::<SessionEntry>::empty(),
            r.dense(),
    {
        Session { id, entries: Vec::new() }
    }

    /// Appends an event and gives its place.
    pub fn append(&mut self, event: SessionEvent) -> (seq: u64)
        requires
            old(self).dense(),
            old(self).entries@.len() < u64::MAX,
        ensures
            seq == old(self).entries@.len(),
            final(self).id == old(self).id,
            final(self).entries@ == old(self).entries@.push(SessionEntry { seq, event }),
            final(self).dense(),
    {
        let seq: u64 = self.entries.len() as u64;
        self.entries.push(SessionEntry { seq, event });
        seq
    }
}

// ---------------------------------------------------------------------------
// texts
// ---------------------------------------------------------------------------

/// The texts among the parts of a message, in order.
pub open spec fn content_texts(content: Seq<ContentBlock>) -> Seq<Seq<char>>
    decreases content.len(),
{
    if content.len() == 0 {
        Seq::empty()
    } else {
        match content.last() {
            ContentBlock::Text { text } => content_texts(content.drop_last()).push(text@),
            _ => content_texts(content.drop_last()),
        }
    }
}

/// The texts among the parts of a tool result, in order.
pub open spec fn result_texts(parts: Seq<ResultPart>) -> Seq<Seq<char>>
    decreases parts.len(),
{
    if parts.len() == 0 {
        Seq::empty()
    } else {
        match parts.last() {
            ResultPart::Text(s) => result_texts(parts.drop_last()).push(s@),
            _ => result_texts(parts.drop_last()),
        }
    }
}

/// The texts of a message without anything between them.
pub open spec fn plain_text(content: Seq<ContentBlock>) -> Seq<char> {
    text::joined(content_texts(content), ""@)
}

/// The texts of a tool result without anything between them.
pub open spec fn result_text(parts: Seq<ResultPart>) -> Seq<char> {
    text::joined(result_texts(parts), ""@)
}

fn collect_texts(content: &Vec<ContentBlock>) -> (r: Vec<String>)
    ensures
        r.deep_view() == content_texts(content@),
{
    let mut r: Vec<String> = Vec::new();
    let mut i: usize = 0;
    assert(content@.take(0) =~= Seq::<ContentBlock>::empty());
    assert(r.deep_view() =~= Seq::<Seq<char>>::empty());
    while i < content.len()
        invariant
            i <= content@.len(),
            r.deep_view() == content_texts(content@.take(i as int)),
        decreases content@.len() - i,
    {
        let ghost next = content@.take(i + 1);
        assert(next.drop_last() =~= content@.take(i as int));
        let ghost before = r.deep_view();
        match &content[i] {
            ContentBlock::Text { text } => {
                r.push(text.clone());
                assert(r.deep_view() =~= before.push(text@));
            },
            _ => {},
        }
        i = i + 1;
    }
    assert(content@.take(i as int) =~= content@);
    r
}

/// The texts of a message, with `sep` between each two.
pub fn join_texts(content: &Vec<ContentBlock>, sep: &str) -> (r: String)
    ensures
        r@ == text::joined(content_texts(content@), sep@),
{
    let v: Vec<String> = collect_texts(content);
    text::join(&v, sep)
}

/// The texts of a tool result without anything between them.
pub fn join_result(parts: &Vec<ResultPart>) -> (r: String)
    ensures
        r@ == result_text(parts@),
{
    let mut v: Vec<String> = Vec::new();
    let mut i: usize = 0;
    assert(parts@.take(0) =~= Seq::<ResultPart>::empty());
    assert(v.deep_view() =~= Seq::<Seq<char>>::empty());
    while i < parts.len()
        invariant
            i <= parts@.len(),
            v.deep_view() == result_texts(parts@.take(i as int)),
        decreases parts@.len() - i,
    {
        let ghost next = parts@.take(i + 1);
        assert(next.drop_last() =~= parts@.take(i as int));
        let ghost before = v.deep_view();
        match &parts[i] {
            ResultPart::Text(s) => {
                v.push(s.clone());
                assert(v.deep_view() =~= before.push(s@));
            },
            _ => {},
        }
        i = i + 1;
    }
    assert(parts@.take(i as int) =~= parts@);
    text::join(&v, "")
}

/// The texts and thoughts among the parts of a message, in order.
pub open spec fn spoken_texts(content: Seq<ContentBlock>) -> Seq<Seq<char>>
    decreases content.len(),
{
    if content.len() == 0 {
        Seq::empty()
    } else {
        match content.last() {
            ContentBlock::Text { text } => spoken_texts(content.drop_last()).push(text@),
            ContentBlock::Reasoning { text } => spoken_texts(content.drop_last()).push(text@),
            _ => spoken_texts(content.drop_last()),
        }
    }
}

/// Everything a message says: its texts and thoughts.
pub fn message_text(m: &Message) -> (r: String)
    ensures
        r@ == text::joined(spoken_texts(m.content@), ""@),
{
    let mut v: Vec<String> = Vec::new();
    let mut i: usize = 0;
    assert(m.content@.take(0) =~= Seq::<ContentBlock>::empty());
    assert(v.deep_view() =~= Seq::<Seq<char>>::empty());
    while i < m.content.len()
        invariant
            i <= m.content@.len(),
            v.deep_view() == spoken_texts(m.content@.take(i as int)),
        decreases m.content@.len() - i,
    {
        let ghost next = m.content@.take(i + 1);
        assert(next.drop_last() =~= m.content@.take(i as int));
        let ghost before = v.deep_view();
        match &m.content[i] {
            ContentBlock::Text { text } => {
                v.push(text.clone());
                assert(v.deep_view() =~= before.push(text@));
            },
            ContentBlock::Reasoning { text } => {
                v.push(text.clone());
                assert(v.deep_view() =~= before.push(text@));
            },
            _ => {},
        }
        i = i + 1;
    }
    assert(m.content@.take(i as int) =~= m.content@);
    text::join(&v, "")
}

// ---------------------------------------------------------------------------
// reading the log
// ---------------------------------------------------------------------------

/// Whether a log holds no turn.
pub open spec fn blank(entries: Seq<SessionEntry>) -> bool {
    forall|i: int| 0 <= i < entries.len() ==> !((#[trigger] entries[i]).event is TurnStart)
}

/// Whether a session is blank: no turn was ever started in it, whatever else
/// was logged.
pub fn session_is_blank(session: &Session) -> (r: bool)
    ensures
        r == blank(session.entries@),
{
    let mut i: usize = 0;
    while i < session.entries.len()
        invariant
            i <= session.entries@.len(),
            forall|k: int|
                0 <= k < i ==> !((#[trigger] session.entries@[k]).event is TurnStart),
        decreases session.entries@.len() - i,
    {
        match &session.entries[i].event {
            SessionEvent::TurnStart { .. } => {
                assert(session.entries@[i as int].event is TurnStart);
                return false;
            },
            _ => {},
        }
        i = i + 1;
    }
    true
}

/// Whether the entry holds the result of the call, and with which text and
/// mark.
pub open spec fn result_in(e: SessionEntry, call_id: Seq<char>) -> Option<(Seq<char>, bool)> {
    match e.event {
        SessionEvent::ToolResult { message, .. } => if message.content@.len() > 0 {
            match message.content@[0] {
                ContentBlock::ToolResult { tool_call_id, content, is_error } => if tool_call_id@
                    == call_id {
                    Some(
                        (
                            result_text(content@),
                            match is_error {
                                Some(b) => b,
                                None => false,
                            },
                        ),
                    )
                } else {
                    None
                },
                _ => None,
            }
        } else {
            None
        },
        _ => None,
    }
}

/// The latest result of the call in a log; empty and unmarked where there is
/// none.
pub open spec fn latest_result(entries: Seq<SessionEntry>, call_id: Seq<char>) -> (Seq<char>, bool)
    decreases entries.len(),
{
    if entries.len() == 0 {
        (Seq::empty(), false)
    } else {
        match result_in(entries.last(), call_id) {
            Some(r) => r,
            None => latest_result(entries.drop_last(), call_id),
        }
    }
}

/// The latest result of the call in a log; empty and unmarked where there is
/// none.
pub fn latest_tool_result_text(session: &Session, call_id: &str) -> (r: (String, bool))
    ensures
        (r.0@, r.1) == latest_result(session.entries@, call_id@),
{
    let mut n: usize = session.entries.len();
    assert(session.entries@.take(n as int) =~= session.entries@);
    while n > 0
        invariant
            n <= session.entries@.len(),
            latest_result(session.entries@, call_id@) == latest_result(
                session.entries@.take(n as int),
                call_id@,
            ),
        decreases n,
    {
        let ghost part = session.entries@.take(n as int);
        assert(part.drop_last() =~= session.entries@.take(n - 1));
        assert(part.last() == session.entries@[n - 1]);
        match &session.entries[n - 1].event {
            SessionEvent::ToolResult { message, .. } => {
                if message.content.len() > 0 {
                    match &message.content[0] {
                        ContentBlock::ToolResult { tool_call_id, content, is_error } => {
                            if text::same(tool_call_id.as_str(), call_id) {
                                let mark: bool = match is_error {
                                    Some(b) => *b,
                                    None => false,
                                };
                                return (join_result(content), mark);
                            }
                        },
                        _ => {},
                    }
                }
            },
            _ => {},
        }
        n = n - 1;
    }
    (String::new(), false)
}

/// The system prompt that a log holds last, with its place: the first part of
/// the last system message, empty where that is no text.
pub open spec fn system_head(entries: Seq<SessionEntry>) -> Option<(u64, Seq<char>)>
    decreases entries.len(),
{
    if entries.len() == 0 {
        None
    } else {
        match entries.last().event {
            SessionEvent::SystemMessage { message, .. } => Some(
                (
                    entries.last().seq,
                    if message.content@.len() > 0 {
                        match message.content@[0] {
                            ContentBlock::Text { text } => text@,
                            _ => Seq::empty(),
                        }
                    } else {
                        Seq::empty()
                    },
                ),
            ),
            _ => system_head(entries.drop_last()),
        }
    }
}

/// What a tracked system prompt holds.
pub open spec fn head_view(h: Option<(u64, String)>) -> Option<(u64, Seq<char>)> {
    match h {
        Some((seq, s)) => Some((seq, s@)),
        None => None,
    }
}

/// The system prompt that a session's log holds last, with its place.
pub fn find_system_head(session: &Session) -> (r: Option<(u64, String)>)
    ensures
        head_view(r) == system_head(session.entries@),
{
    let mut n: usize = session.entries.len();
    assert(session.entries@.take(n as int) =~= session.entries@);
    while n > 0
        invariant
            n <= session.entries@.len(),
            system_head(session.entries@) == system_head(session.entries@.take(n as int)),
        decreases n,
    {
        let ghost part = session.entries@.take(n as int);
        assert(part.drop_last() =~= session.entries@.take(n - 1));
        assert(part.last() == session.entries@[n - 1]);
        match &session.entries[n - 1].event {
            SessionEvent::SystemMessage { message, .. } => {
                let seq: u64 = session.entries[n - 1].seq;
                if message.content.len() > 0 {
                    match &message.content[0] {
                        ContentBlock::Text { text } => {
                            return Some((seq, text.clone()));
                        },
                        _ => {},
                    }
                }
                return Some((seq, String::new()));
            },
            _ => {},
        }
        n = n - 1;
    }
    None
}

// ---------------------------------------------------------------------------
// permissions
// ---------------------------------------------------------------------------

/// A permission preset: its key, its name, the sandbox mode and the approval
/// policy that it stands for.
pub struct Preset {
    pub key: &'static str,
    pub label: &'static str,
    pub sandbox: &'static str,
    pub approval: &'static str,
}

/// The contents of a preset.
pub struct PresetView {
    pub key: Seq<char>,
    pub label: Seq<char>,
    pub sandbox: Seq<char>,
    pub approval: Seq<char>,
}

impl Preset {
    pub open spec fn shown(self) -> PresetView {
        PresetView {
            key: self.key@,
            label: self.label@,
            sandbox: self.sandbox@,
            approval: self.approval@,
        }
    }
}

/// The preset for a mode.
pub open spec fn preset_for(mode: fs::FsMode) -> PresetView {
    match mode {
        fs::FsMode::ReadOnly => PresetView {
            key: "read-only"@,
            label: "仅可查看"@,
            sandbox: "read-only"@,
            approval: "ask"@,
        },
        fs::FsMode::WorkspaceWrite => PresetView {
            key: "workspace-write"@,
            label: "工作区内修改"@,
            sandbox: "workspace-write"@,
            approval: "ask"@,
        },
        fs::FsMode::DangerFullAccess => PresetView {
            key: "danger-full-access"@,
            label: "完全权限"@,
            sandbox: "danger-full-access"@,
            approval: "never"@,
        },
    }
}

/// The mode that the preset with a key stands for; a key that names none
/// stands for the workspace mode.
pub open spec fn preset_mode(key: Seq<char>) -> fs::FsMode {
    match fs::mode_named(key) {
        Some(mode) => mode,
        None => fs::FsMode::WorkspaceWrite,
    }
}

/// Whether a key names a preset.
pub fn is_preset(key: &str) -> (r: bool)
    ensures
        r == (fs::mode_named(key@) is Some),
{
    fs::FsMode::from_web(key).is_some()
}

/// The preset with a key; a key that names none gives the workspace preset.
pub fn preset_spec(key: &str) -> (r: Preset)
    ensures
        r.shown() == preset_for(preset_mode(key@)),
{
    match fs::FsMode::from_web(key) {
        Some(fs::FsMode::ReadOnly) => Preset {
            key: "read-only",
            label: "仅可查看",
            sandbox: "read-only",
            approval: "ask",
        },
        Some(fs::FsMode::DangerFullAccess) => Preset {
            key: "danger-full-access",
            label: "完全权限",
            sandbox: "danger-full-access",
            approval: "never",
        },
        _ => Preset {
            key: "workspace-write",
            label: "工作区内修改",
            sandbox: "workspace-write",
            approval: "ask",
        },
    }
}

/// The name of the preset with a key.
pub fn preset_label(key: &str) -> (r: &'static str)
    ensures
        r@ == preset_for(preset_mode(key@)).label,
{
    preset_spec(key).label
}

/// The icon of the preset with a key.
pub fn permission_glyph(key: &str) -> (r: &'static str)
    ensures
        r@ == (match preset_mode(key@) {
            fs::FsMode::ReadOnly => "icons/permission-readonly.svg"@,
            fs::FsMode::WorkspaceWrite => "icons/permission-workspace.svg"@,
            fs::FsMode::DangerFullAccess => "icons/permission-full.svg"@,
        }),
{
    match fs::FsMode::from_web(key) {
        Some(fs::FsMode::ReadOnly) => "icons/permission-readonly.svg",
        Some(fs::FsMode::DangerFullAccess) => "icons/permission-full.svg",
        _ => "icons/permission-workspace.svg",
    }
}

/// The preset that a log holds last.
pub open spec fn last_preset(entries: Seq<SessionEntry>) -> Option<Seq<char>>
    decreases entries.len(),
{
    if entries.len() == 0 {
        None
    } else {
        match entries.last().event {
            SessionEvent::PermissionPreset { preset } => Some(preset@),
            _ => last_preset(entries.drop_last()),
        }
    }
}

/// The approval policy that a log holds last.
pub open spec fn last_approval(entries: Seq<SessionEntry>) -> Option<Seq<char>>
    decreases entries.len(),
{
    if entries.len() == 0 {
        None
    } else {
        match entries.last().event {
            SessionEvent::ApprovalPolicy { policy } => Some(policy@),
            _ => last_approval(entries.drop_last()),
        }
    }
}

/// What a session may do.
pub struct Permission {
    pub preset: String,
    pub approval: String,
    pub mode: fs::FsMode,
}

/// The permissions of a session are those that its log holds last; what the
/// log does not say comes from the default preset, and the approval from the
/// preset.
pub fn restore_permission(session: &Session, default_preset: &str) -> (r: Permission)
    ensures
        r.preset@ == (match last_preset(session.entries@) {
            Some(p) => p,
            None => default_preset@,
        }),
        r.approval@ == (match last_approval(session.entries@) {
            Some(p) => p,
            None => preset_for(preset_mode(r.preset@)).approval,
        }),
        r.mode == preset_mode(r.preset@),
{
    let mut preset: Option<String> = None;
    let mut approval: Option<String> = None;
    let mut i: usize = 0;
    assert(session.entries@.take(0) =~= Seq::<SessionEntry>::empty());
    while i < session.entries.len()
        invariant
            i <= session.entries@.len(),
            preset.deep_view() == last_preset(session.entries@.take(i as int)),
            approval.deep_view() == last_approval(session.entries@.take(i as int)),
        decreases session.entries@.len() - i,
    {
        let ghost next = session.entries@.take(i + 1);
        assert(next.drop_last() =~= session.entries@.take(i as int));
        match &session.entries[i].event {
            SessionEvent::PermissionPreset { preset: p } => {
                preset = Some(p.clone());
            },
            SessionEvent::ApprovalPolicy { policy } => {
                approval = Some(policy.clone());
            },
            _ => {},
        }
        i = i + 1;
    }
    assert(session.entries@.take(i as int) =~= session.entries@);
    let preset: String = match preset {
        Some(p) => p,
        None => default_preset.to_owned(),
    };
    let spec: Preset = preset_spec(preset.as_str());
    let approval: String = match approval {
        Some(p) => p,
        None => spec.approval.to_owned(),
    };
    let mode: fs::FsMode = match fs::FsMode::from_web(preset.as_str()) {
        Some(m) => m,
        None => fs::FsMode::WorkspaceWrite,
    };
    Permission { preset, approval, mode }
}

/// What the default preset of a new session pins in its log: the preset, the
/// sandbox mode and the approval policy, in this order.
pub fn pin_permission(default_preset: &str) -> (r: Vec<SessionEvent>)
    ensures
        r@.len() == 3,
        r@[0] matches SessionEvent::PermissionPreset { preset } && preset@ == default_preset@,
        r@[1] matches SessionEvent::SandboxModeSwitch { mode } && mode@ == preset_for(
            preset_mode(default_preset@),
        ).sandbox,
        r@[2] matches SessionEvent::ApprovalPolicy { policy } && policy@ == preset_for(
            preset_mode(default_preset@),
        ).approval,
{
    let spec: Preset = preset_spec(default_preset);
    let mut r: Vec<SessionEvent> = Vec::new();
    r.push(SessionEvent::PermissionPreset { preset: default_preset.to_owned() });
    r.push(SessionEvent::SandboxModeSwitch { mode: spec.sandbox.to_owned() });
    r.push(SessionEvent::ApprovalPolicy { policy: spec.approval.to_owned() });
    r
}

/// What switching to a preset changes.
pub struct PresetSwitch {
    /// What the log is given.
    pub events: Vec<SessionEvent>,
    /// The mode, where it changes.
    pub mode: Option<fs::FsMode>,
}

/// Whether the events of a switch are those of the changes: the preset always,
/// the mode and the approval policy only where they change.
pub open spec fn switch_events(
    events: Seq<SessionEvent>,
    preset: Seq<char>,
    mode: Option<Seq<char>>,
    approval: Option<Seq<char>>,
) -> bool {
    let m = if mode is Some {
        1int
    } else {
        0int
    };
    let a = if approval is Some {
        1int
    } else {
        0int
    };
    &&& events.len() == 1 + m + a
    &&& (events[0] matches SessionEvent::PermissionPreset { preset: p } && p@ == preset)
    &&& (mode matches Some(name) ==> (events[1] matches SessionEvent::SandboxModeSwitch { mode: s }
        && s@ == name))
    &&& (approval matches Some(name) ==> (events[1 + m] matches SessionEvent::ApprovalPolicy {
        policy,
    } && policy@ == name))
}

/// Switches the permissions of a session to a preset. Switching to the preset
/// that is set changes nothing.
pub fn switch_permission(
    current: &mut Permission,
    mode_now: fs::FsMode,
    preset: &str,
) -> (r: Option<PresetSwitch>)
    ensures
        r is None == (preset@ == old(current).preset@),
        r is None ==> *final(current) == *old(current),
        r matches Some(s) ==> {
            let target = preset_mode(preset@);
            let approval = preset_for(target).approval;
            &&& final(current).preset@ == preset@
            &&& final(current).approval@ == approval
            &&& final(current).mode == target
            &&& s.mode == (if target == mode_now {
                None
            } else {
                Some(target)
            })
            &&& switch_events(
                s.events@,
                preset@,
                if target == mode_now {
                    None
                } else {
                    Some(fs::mode_name(target))
                },
                if approval == old(current).approval@ {
                    None
                } else {
                    Some(approval)
                },
            )
        },
{
    if text::same(preset, current.preset.as_str()) {
        return None;
    }
    let spec: Preset = preset_spec(preset);
    let target: fs::FsMode = match fs::FsMode::from_web(preset) {
        Some(m) => m,
        None => fs::FsMode::WorkspaceWrite,
    };
    let mut events: Vec<SessionEvent> = Vec::new();
    events.push(SessionEvent::PermissionPreset { preset: preset.to_owned() });
    let mut mode: Option<fs::FsMode> = None;
    if target != mode_now {
        events.push(SessionEvent::SandboxModeSwitch { mode: spec.sandbox.to_owned() });
        mode = Some(target);
    }
    let kept: bool = text::same(spec.approval, current.approval.as_str());
    if !kept {
        events.push(SessionEvent::ApprovalPolicy { policy: spec.approval.to_owned() });
    }
    current.approval = spec.approval.to_owned();
    current.preset = preset.to_owned();
    current.mode = target;
    Some(PresetSwitch { events, mode })
}

// ---------------------------------------------------------------------------
// laws
// ---------------------------------------------------------------------------

/// The texts of a message are its text parts, and what was said also takes in
/// its thoughts: none is left out, and they keep their order.
pub proof fn every_text_is_said(content: Seq<ContentBlock>)
    ensures
        content_texts(content) == content.filter(|b: ContentBlock| b is Text).map_values(
            |b: ContentBlock| b->Text_text@,
        ),
        spoken_texts(content) == content.filter(
            |b: ContentBlock| b is Text || b is Reasoning,
        ).map_values(
            |b: ContentBlock|
                if b is Text {
                    b->Text_text@
                } else {
                    b->Reasoning_text@
                },
        ),
    decreases content.len(),
{
    reveal(Seq::filter);
    let texts = |b: ContentBlock| b is Text;
    let text = |b: ContentBlock| b->Text_text@;
    let said = |b: ContentBlock| b is Text || b is Reasoning;
    let word = |b: ContentBlock|
        if b is Text {
            b->Text_text@
        } else {
            b->Reasoning_text@
        };
    if content.len() > 0 {
        let head = content.drop_last();
        let last = content.last();
        every_text_is_said(head);
        if texts(last) {
            assert(head.filter(texts).push(last).map_values(text) =~= head.filter(
                texts,
            ).map_values(text).push(text(last)));
        }
        if said(last) {
            assert(head.filter(said).push(last).map_values(word) =~= head.filter(said).map_values(
                word,
            ).push(word(last)));
        }
    }
    assert(content_texts(content) =~= content.filter(texts).map_values(text));
    assert(spoken_texts(content) =~= content.filter(said).map_values(word));
}

/// The text of a message goes on with each text part, and with nothing else.
pub proof fn text_of_a_message_goes_on(content: Seq<ContentBlock>, b: ContentBlock)
    ensures
        plain_text(content.push(b)) == plain_text(content) + (if b is Text {
            b->Text_text@
        } else {
            Seq::empty()
        }),
        plain_text(Seq::empty()) == Seq::<char>::empty(),
{
    assert(content.push(b).drop_last() =~= content);
    let texts = content_texts(content);
    if b is Text {
        let one = seq![b->Text_text@];
        text::joining_without_a_gap(texts, one);
        assert(texts + one =~= texts.push(b->Text_text@));
    } else {
        assert(plain_text(content) + Seq::<char>::empty() =~= plain_text(content));
    }
}

/// The text of a result goes on with each text part, and with nothing else.
pub proof fn text_of_a_result_goes_on(parts: Seq<ResultPart>, p: ResultPart)
    ensures
        result_text(parts.push(p)) == result_text(parts) + (match p {
            ResultPart::Text(s) => s@,
            ResultPart::Other => Seq::empty(),
        }),
        result_text(Seq::empty()) == Seq::<char>::empty(),
{
    assert(parts.push(p).drop_last() =~= parts);
    let texts = result_texts(parts);
    if let ResultPart::Text(s) = p {
        text::joining_without_a_gap(texts, seq![s@]);
        assert(texts + seq![s@] =~= texts.push(s@));
    } else {
        assert(result_text(parts) + Seq::<char>::empty() =~= result_text(parts));
    }
}

/// The result of a call is the latest that the log holds for its id, with the
/// text of that result, and marked as failed exactly where it says so.
pub proof fn latest_result_counts(
    entries: Seq<SessionEntry>,
    call_id: Seq<char>,
    i: int,
    message: Message,
    id: String,
    content: Vec<ResultPart>,
    is_error: Option<bool>,
)
    requires
        0 <= i < entries.len(),
        entries[i].event matches SessionEvent::ToolResult { message: m, .. } && m == message,
        message.content@.len() > 0,
        message.content@[0] == (ContentBlock::ToolResult { tool_call_id: id, content, is_error }),
        id@ == call_id,
        forall|j: int| i < j < entries.len() ==> !((#[trigger] entries[j]).event is ToolResult),
    ensures
        latest_result(entries, call_id).0 == result_text(content@),
        latest_result(entries, call_id).1 <==> is_error == Some(true),
    decreases entries.len(),
{
    if i < entries.len() - 1 {
        let head = entries.drop_last();
        assert forall|j: int| i < j < head.len() implies !((#[trigger] head[j]).event is ToolResult)
            by {
            assert(head[j] == entries[j]);
        }
        assert(!(entries[entries.len() - 1].event is ToolResult));
        latest_result_counts(head, call_id, i, message, id, content, is_error);
    }
}

/// A result for another call leaves that of a call as it is; without one a call
/// has no text and no mark.
pub proof fn other_results_do_not_count(
    entries: Seq<SessionEntry>,
    e: SessionEntry,
    call_id: Seq<char>,
)
    requires
        !(e.event is ToolResult) || (e.event->ToolResult_message.content@.len() > 0
            && (e.event->ToolResult_message.content@[0] matches ContentBlock::ToolResult {
            tool_call_id,
            ..
        } && tool_call_id@ != call_id)),
    ensures
        latest_result(entries.push(e), call_id) == latest_result(entries, call_id),
        latest_result(Seq::empty(), call_id) == (Seq::<char>::empty(), false),
{
    assert(entries.push(e).drop_last() =~= entries);
}

/// A session is blank until a turn starts in it, and never again after.
pub proof fn turn_ends_the_blank(a: Seq<SessionEntry>, e: SessionEntry, b: Seq<SessionEntry>)
    ensures
        blank(Seq::empty()),
        e.event is TurnStart ==> !blank(a.push(e) + b),
        !(e.event is TurnStart) ==> blank(a.push(e)) == blank(a),
{
    let all = a.push(e) + b;
    assert(all[a.len() as int] == e);
    if !(e.event is TurnStart) {
        if blank(a) {
            assert forall|i: int| 0 <= i < a.push(e).len() implies !((#[trigger] a.push(
                e,
            )[i]).event is TurnStart) by {
                if i < a.len() {
                    assert(a.push(e)[i] == a[i]);
                }
            }
        }
        if blank(a.push(e)) {
            assert forall|i: int| 0 <= i < a.len() implies !((#[trigger] a[i]).event is TurnStart)
                by {
                assert(a.push(e)[i] == a[i]);
            }
        }
    }
}

/// The presets are those of the modes: a preset has the name of its mode and
/// sets it, a key without a mode never opens more than the workspace, and only
/// full access goes unasked.
pub proof fn presets_follow_the_modes(mode: fs::FsMode, key: Seq<char>)
    ensures
        preset_for(mode).key == fs::mode_name(mode),
        preset_for(mode).sandbox == fs::mode_name(mode),
        preset_mode(preset_for(mode).key) == mode,
        preset_for(mode).approval == "never"@ <==> mode == fs::FsMode::DangerFullAccess,
        preset_for(mode).approval == "ask"@ <==> mode != fs::FsMode::DangerFullAccess,
        preset_mode(key) == fs::FsMode::DangerFullAccess ==> key == "danger-full-access"@,
        preset_mode(key) == fs::FsMode::ReadOnly ==> key == "read-only"@,
{
    fs::mode_names_round_trip(mode, key);
    reveal_strlit("never");
    reveal_strlit("ask");
    assert("never"@.len() == 5 && "ask"@.len() == 3);
}

/// A log holds the preset and the policy that it was given last.
pub proof fn last_choice_counts(a: Seq<SessionEntry>, e: SessionEntry)
    ensures
        last_preset(a.push(e)) == (if e.event is PermissionPreset {
            Some(e.event->preset@)
        } else {
            last_preset(a)
        }),
        last_approval(a.push(e)) == (if e.event is ApprovalPolicy {
            Some(e.event->policy@)
        } else {
            last_approval(a)
        }),
        last_preset(Seq::empty()) is None,
        last_approval(Seq::empty()) is None,
{
    assert(a.push(e).drop_last() =~= a);
}

/// A switch is restored from the log that it was written to: the preset is the
/// new one, and the policy is that of the preset.
pub proof fn switch_is_restored(
    entries: Seq<SessionEntry>,
    events: Seq<SessionEvent>,
    after: Seq<SessionEntry>,
    preset: Seq<char>,
    mode: Option<Seq<char>>,
    approval: Seq<char>,
    changed: bool,
)
    requires
        switch_events(
            events,
            preset,
            mode,
            if changed {
                Some(approval)
            } else {
                None
            },
        ),
        changed || last_approval(entries) == Some(approval),
        after.len() == entries.len() + events.len(),
        forall|i: int| 0 <= i < entries.len() ==> after[i] == entries[i],
        forall|i: int|
            0 <= i < events.len() ==> (#[trigger] after[entries.len() + i]).event == events[i],
    ensures
        last_preset(after) == Some(preset),
        last_approval(after) == Some(approval),
{
    let n = entries.len() as int;
    let first = after.take(n + 1);
    assert(first =~= entries.push(after[n]));
    assert(after[n + 0].event == events[0]);
    last_choice_counts(entries, after[n]);
    if events.len() > 1 {
        let second = after.take(n + 2);
        assert(after[n + 1].event == events[1]);
        assert(second =~= first.push(after[n + 1]));
        last_choice_counts(first, after[n + 1]);
        if events.len() > 2 {
            assert(after[n + 2].event == events[2]);
            assert(after =~= second.push(after[n + 2]));
            last_choice_counts(second, after[n + 2]);
        } else {
            assert(after =~= second);
        }
    } else {
        assert(after =~= first);
    }
}

/// The system prompt at the head of a log is the one that it was given last.
pub proof fn last_prompt_is_the_head(a: Seq<SessionEntry>, e: SessionEntry, text: String)
    ensures
        !(e.event is SystemMessage) ==> system_head(a.push(e)) == system_head(a),
        e.event is SystemMessage && e.event->SystemMessage_message.content@ == seq![
            ContentBlock::Text { text },
        ] ==> system_head(a.push(e)) == Some((e.seq, text@)),
        e.event is SystemMessage && e.event->SystemMessage_message.content@.len() == 0
            ==> system_head(a.push(e)) == Some((e.seq, Seq::<char>::empty())),
        system_head(Seq::empty()) is None,
{
    assert(a.push(e).drop_last() =~= a);
}

} // verus!
