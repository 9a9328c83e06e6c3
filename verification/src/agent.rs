//! The agent's turns and steps: what is logged, what is asked and when a turn
//! is over. The driver around it waits, streams and runs tools.

use crate::session::{
    CallConfig, CallConfigView, Checkpoint, ContentBlock, Failure, HeaderReason, HeaderView,
    Message, MessageRole, MessageSource, RequestHeader, ResultPart, SessionEvent, StreamChunk,
    TokenUsage, ToolSchema, ToolSchemaView, TurnEndReason,
};
use crate::json;
use crate::session;
use crate::text;
use vstd::prelude::*;

verus! {

/// What observers see of the agent's work.
pub enum AgentEvent {
    TurnStarted { turn: u64 },
    TextDelta { text: String },
    ReasoningDelta { text: String },
    ToolCall { tool_call_id: String, name: String, arguments: String },
    ToolResult { tool_call_id: String, is_error: bool },
    AssistantMessage { message: Message, usage: Option<TokenUsage> },
    TurnEnded { turn: u64, reason: TurnEndReason },
    /// Earlier messages were replaced by a summary.
    Compacted { shadowed_messages: usize },
    Error { message: String, code: String },
}

/// What an agent is set up with.
pub struct AgentOptions {
    pub provider: String,
    pub model: String,
    pub max_tokens: Option<u32>,
    pub system_prompt: Option<String>,
    /// Above how many tokens earlier messages are summed up; 0 for never.
    pub threshold_tokens: u64,
    /// How many messages a summary leaves alone.
    pub keep_recent: usize,
    pub workdir: Option<String>,
    pub attachments_root: Option<String>,
}

impl AgentOptions {
    /// Sends later requests another way.
    pub fn set_provider_and_model(&mut self, provider: String, model: String)
        ensures
            *final(self) == (AgentOptions { provider, model, ..*old(self) }),
    {
        self.provider = provider;
        self.model = model;
    }
}

// ---------------------------------------------------------------------------
// messages
// ---------------------------------------------------------------------------

/// A user's message of one text.
pub fn user_message(text: String) -> (r: Message)
    ensures
        r.role == MessageRole::User,
        r.content@ == seq![ContentBlock::Text { text }],
        r.source == MessageSource::User,
{
    let mut content: Vec<ContentBlock> = Vec::new();
    content.push(ContentBlock::Text { text });
    assert(content@ =~= seq![ContentBlock::Text { text }]);
    Message { role: MessageRole::User, content, source: MessageSource::User }
}

/// The name of a route as seen from another: the model alone where the
/// provider is the same.
pub open spec fn route_name(
    provider: Seq<char>,
    model: Seq<char>,
    other: Seq<char>,
) -> Seq<char> {
    if provider == other {
        model
    } else {
        provider + "/"@ + model
    }
}

/// The name of a route as seen from another: the model alone where the
/// provider is the same.
pub fn route_label(provider: &str, model: &str, other_provider: &str) -> (r: String)
    ensures
        r@ == route_name(provider@, model@, other_provider@),
{
    if text::same(provider, other_provider) {
        model.to_owned()
    } else {
        text::concat3(provider, "/", model)
    }
}

/// Whether `m` is the system message for a prompt; an empty prompt gives a
/// message without parts.
pub open spec fn is_system_prompt(m: Message, prompt: Seq<char>) -> bool {
    &&& m.role == MessageRole::System
    &&& m.source matches MessageSource::Plugin { plugin, form, summary, sections } && sections is None
        && plugin@
        == "@deepseek-ai/dsh-system-prompt"@ && form is None && summary is None
    &&& if prompt.len() == 0 {
        m.content@.len() == 0
    } else {
        m.content@.len() == 1 && (m.content@[0] matches ContentBlock::Text { text } && text@
            == prompt)
    }
}

/// The system message for a prompt.
pub fn system_prompt_message(rendered: &str) -> (r: Message)
    ensures
        is_system_prompt(r, rendered@),
{
    let mut content: Vec<ContentBlock> = Vec::new();
    if !rendered.is_empty() {
        content.push(ContentBlock::Text { text: rendered.to_owned() });
    }
    Message {
        role: MessageRole::System,
        content,
        source: MessageSource::Plugin {
            plugin: "@deepseek-ai/dsh-system-prompt".to_owned(),
            form: None,
            summary: None,
            sections: None,
        },
    }
}

/// A summary line: without blanks around it, and of at most 120 characters,
/// the last of them an ellipsis where something was left out.
pub open spec fn bounded_line(s: Seq<char>) -> Seq<char> {
    let t = text::trimmed(s);
    if t.len() <= 120 {
        t
    } else {
        t.take(119) + "…"@
    }
}

/// A summary line of at most 120 characters.
pub fn bound_summary(s: &str) -> (r: String)
    ensures
        r@ == bounded_line(s@),
{
    let t: String = text::trim(s);
    let n: usize = text::char_count(t.as_str());
    if n <= 120 {
        t
    } else {
        text::take_chars(t.as_str(), 119).concat("…")
    }
}

/// Whether `m` announces that the session goes on with another model.
pub open spec fn is_switch_notice(
    m: Message,
    previous: (Seq<char>, Seq<char>),
    selected: (Seq<char>, Seq<char>),
) -> bool {
    let from = route_name(previous.0, previous.1, selected.0);
    let to = route_name(selected.0, selected.1, previous.0);
    &&& m.role == MessageRole::User
    &&& m.content@.len() == 1
    &&& (m.content@[0] matches ContentBlock::Text { text } && text@
        == "[model changed: assistant turns above this point were generated by "@ + from
        + "; the session continues with "@ + to + "]"@)
    &&& (m.source matches MessageSource::Plugin { plugin, form, summary, sections } && sections is None
        && plugin@
        == "model-selection"@ && (form matches Some(f) && f@ == "notice"@) && (
    summary matches Some(s) && s@ == bounded_line(from + " → "@ + to)))
}

/// The announcement that the session goes on with another model.
pub fn model_switch_notice_message(previous: (&str, &str), selected: (&str, &str)) -> (r: Message)
    ensures
        is_switch_notice(r, (previous.0@, previous.1@), (selected.0@, selected.1@)),
{
    let from: String = route_label(previous.0, previous.1, selected.0);
    let to: String = route_label(selected.0, selected.1, previous.0);
    let mut line: String =
        "[model changed: assistant turns above this point were generated by ".to_owned();
    line.append(from.as_str());
    line.append("; the session continues with ");
    line.append(to.as_str());
    line.append("]");
    let arrow: String = text::concat3(from.as_str(), " → ", to.as_str());
    let mut content: Vec<ContentBlock> = Vec::new();
    content.push(ContentBlock::Text { text: line });
    Message {
        role: MessageRole::User,
        content,
        source: MessageSource::Plugin {
            plugin: "model-selection".to_owned(),
            form: Some("notice".to_owned()),
            summary: Some(bound_summary(arrow.as_str())),
            sections: None,
        },
    }
}

/// The character of a hexadecimal digit.
pub open spec fn hex_digit(d: int) -> char {
    if d < 10 {
        (48 + d) as char
    } else {
        (87 + d) as char
    }
}

/// The last `width` hexadecimal digits of `n`.
pub open spec fn hex(n: nat, width: nat) -> Seq<char>
    decreases width,
{
    if width == 0 {
        Seq::empty()
    } else {
        hex(n / 16, (width - 1) as nat).push(hex_digit((n % 16) as int))
    }
}

fn hex_text(n: u128, width: usize) -> (r: String)
    ensures
        r@ == hex(n as nat, width as nat),
    decreases width,
{
    if width == 0 {
        String::new()
    } else {
        let mut r: String = hex_text(n / 16, width - 1);
        let d: u8 = (n % 16) as u8;
        let c: char = if d < 10 { (48 + d) as char } else { (87 + d) as char };
        r.push(c);
        r
    }
}

/// An id made of a time in nanoseconds: 32 hexadecimal digits.
pub fn uuid_simple(nanos: u128) -> (r: String)
    ensures
        r@ == hex(nanos as nat, 32),
{
    hex_text(nanos, 32)
}

// ---------------------------------------------------------------------------
// the prompt
// ---------------------------------------------------------------------------

/// What the model is told of the workspace.
pub open spec fn workspace_note(workdir: Seq<char>) -> Seq<char> {
    "Current DSH file policy: workspace-write. Any available operation enforced by the DSH file sandbox may modify files under the session workspace: \""@
        + workdir + "\". Some platform temporary areas may also be writable."@
}

/// The parts of the system prompt: the base, the sections and the note on the
/// workspace, each where there is one.
pub open spec fn prompt_parts(
    base: Seq<char>,
    sections: Seq<char>,
    workdir: Option<Seq<char>>,
) -> Seq<Seq<char>> {
    let a = if base.len() > 0 {
        seq![base]
    } else {
        Seq::empty()
    };
    let b = if sections.len() > 0 {
        a.push(sections)
    } else {
        a
    };
    match workdir {
        Some(w) => b.push(workspace_note(w)),
        None => b,
    }
}

/// The system prompt.
pub fn assemble_prompt(base: &str, sections: &str, workdir: Option<&str>) -> (r: String)
    ensures
        r@ == text::joined(
            prompt_parts(
                base@,
                sections@,
                match workdir {
                    Some(w) => Some(w@),
                    None => None,
                },
            ),
            "\n\n"@,
        ),
{
    let mut parts: Vec<String> = Vec::new();
    assert(parts.deep_view() =~= Seq::<Seq<char>>::empty());
    if !base.is_empty() {
        parts.push(base.to_owned());
        assert(parts.deep_view() =~= seq![base@]);
    }
    let ghost before = parts.deep_view();
    if !sections.is_empty() {
        parts.push(sections.to_owned());
        assert(parts.deep_view() =~= before.push(sections@));
    }
    let ghost before = parts.deep_view();
    match workdir {
        Some(w) => {
            let note: String = text::concat3(
                "Current DSH file policy: workspace-write. Any available operation enforced by the DSH file sandbox may modify files under the session workspace: \"",
                w,
                "\". Some platform temporary areas may also be writable.",
            );
            parts.push(note);
            assert(parts.deep_view() =~= before.push(workspace_note(w@)));
        },
        None => {},
    }
    text::join(&parts, "\n\n")
}

// ---------------------------------------------------------------------------
// the inbox
// ---------------------------------------------------------------------------

/// When queued input is taken up.
#[derive(Clone, Copy, Debug, PartialEq, Eq, Structural)]
pub enum InboxTarget {
    NextTurn,
    NextStep,
}

/// Input that waits for the next turn or the next step.
pub struct Inbox {
    pub next_turn: Vec<Message>,
    pub next_step: Vec<Message>,
}

impl Inbox {
    /// An empty inbox.
    pub fn new() -> (r: Self)
        ensures
            r.next_turn@.len() == 0,
            r.next_step@.len() == 0,
    {
        Inbox { next_turn: Vec::new(), next_step: Vec::new() }
    }

    /// Queues a message.
    pub fn append(&mut self, target: InboxTarget, message: Message)
        ensures
            final(self).next_turn@ == (if target == InboxTarget::NextTurn {
                old(self).next_turn@.push(message)
            } else {
                old(self).next_turn@
            }),
            final(self).next_step@ == (if target == InboxTarget::NextStep {
                old(self).next_step@.push(message)
            } else {
                old(self).next_step@
            }),
    {
        match target {
            InboxTarget::NextTurn => self.next_turn.push(message),
            InboxTarget::NextStep => self.next_step.push(message),
        }
    }

    /// Whether anything waits.
    pub fn has_pending(&self) -> (r: bool)
        ensures
            r == (self.next_turn@.len() > 0 || self.next_step@.len() > 0),
    {
        self.next_turn.len() > 0 || self.next_step.len() > 0
    }

    /// Whether anything waits for the next step.
    pub fn has_pending_next_step(&self) -> (r: bool)
        ensures
            r == (self.next_step@.len() > 0),
    {
        self.next_step.len() > 0
    }

    /// Empties the inbox and gives what waited: first what waited for a turn,
    /// then what waited for a step.
    pub fn discard(&mut self) -> (r: Vec<Message>)
        ensures
            r@ == old(self).next_turn@ + old(self).next_step@,
            final(self).next_turn@.len() == 0,
            final(self).next_step@.len() == 0,
    {
        let mut all: Vec<Message> = Vec::new();
        all.append(&mut self.next_turn);
        all.append(&mut self.next_step);
        assert(all@ =~= old(self).next_turn@ + old(self).next_step@);
        all
    }
}

/// Whether the agent works.
#[derive(Clone, Copy, Debug, PartialEq, Eq, Structural)]
pub enum AgentStatus {
    Idle,
    Running,
}

/// Sets the status; says whether it changed, which is when observers are told.
pub fn set_status(current: &mut AgentStatus, status: AgentStatus) -> (changed: bool)
    ensures
        *final(current) == status,
        changed == (*old(current) != status),
{
    if *current == status {
        false
    } else {
        *current = status;
        true
    }
}

// ---------------------------------------------------------------------------
// turns
// ---------------------------------------------------------------------------

/// How a step ended.
pub enum StepEnd {
    /// Tools were called: another step follows.
    NeedsAnotherStep,
    Concluded(TurnEndReason),
}

/// What was decided on the input of a step.
pub enum PreStepDecision {
    Reject,
    Enter { messages: Vec<Message> },
}

/// Where a turn stands.
#[derive(Clone, Copy, Debug, PartialEq, Eq, Structural)]
pub enum TurnPhase {
    /// Before a step.
    Head,
    /// Input was taken and awaits a decision.
    Claimed,
    /// The step runs.
    Running,
    Over,
}

/// A turn under way.
pub struct Turn {
    pub turn: u64,
    pub step: u64,
    /// Which input the next step takes.
    pub target: InboxTarget,
    pub ends: Option<TurnEndReason>,
    pub phase: TurnPhase,
}

/// A turn that has just started.
pub open spec fn fresh_turn(turn: u64) -> Turn {
    Turn { turn, step: 0, target: InboxTarget::NextTurn, ends: None, phase: TurnPhase::Head }
}

/// The turn after the look before a step: an aborted turn is over, else the
/// next step takes input.
pub open spec fn after_head(t: Turn, aborted: bool) -> Turn {
    if aborted {
        Turn { ends: Some(TurnEndReason::Aborted), phase: TurnPhase::Over, ..t }
    } else {
        Turn { step: (t.step + 1) as u64, phase: TurnPhase::Claimed, ..t }
    }
}

/// The turn after the decision on a step's input, `none` saying that no
/// message came through. A rejected step blocks the turn. Without input the
/// first step completes the turn, and a later one ends it where it was due to
/// end.
pub open spec fn after_decision(t: Turn, rejected: bool, none: bool) -> Turn {
    if rejected {
        Turn { ends: Some(TurnEndReason::Blocked), phase: TurnPhase::Over, ..t }
    } else if t.step > 1 && t.ends is Some && none {
        Turn { phase: TurnPhase::Over, ..t }
    } else if t.step == 1 && none {
        Turn { ends: Some(TurnEndReason::Completed), phase: TurnPhase::Over, ..t }
    } else {
        Turn { phase: TurnPhase::Running, ..t }
    }
}

/// What a turn ends with after a step: what the step concluded, unless the
/// turn ran out of tokens before.
pub open spec fn ends_after(ends: Option<TurnEndReason>, end: StepEnd) -> Option<TurnEndReason> {
    match end {
        StepEnd::NeedsAnotherStep => ends,
        StepEnd::Concluded(reason) => if ends matches Some(TurnEndReason::MaxTokens) {
            ends
        } else {
            Some(reason)
        },
    }
}

/// The turn after a step: over where an end is due and no input waits for
/// another step.
pub open spec fn after_step(t: Turn, end: StepEnd, waiting: bool) -> Turn {
    let ends = ends_after(t.ends, end);
    if ends is Some && !waiting {
        Turn { ends, phase: TurnPhase::Over, ..t }
    } else {
        Turn { ends, target: InboxTarget::NextStep, phase: TurnPhase::Head, ..t }
    }
}

impl Turn {
    /// The turn that follows the latest one.
    pub fn start(last_turn: u64) -> (r: Self)
        requires
            last_turn < u64::MAX,
        ensures
            r == fresh_turn((last_turn + 1) as u64),
    {
        Turn {
            turn: last_turn + 1,
            step: 0,
            target: InboxTarget::NextTurn,
            ends: None,
            phase: TurnPhase::Head,
        }
    }

    /// Looks before a step whether the turn was aborted; says whether the step
    /// takes input.
    pub fn head(&mut self, aborted: bool) -> (claims: bool)
        requires
            old(self).phase == TurnPhase::Head,
            old(self).step < u64::MAX,
        ensures
            *final(self) == after_head(*old(self), aborted),
            claims == !aborted,
    {
        if aborted {
            self.ends = Some(TurnEndReason::Aborted);
            self.phase = TurnPhase::Over;
            false
        } else {
            self.step = self.step + 1;
            self.phase = TurnPhase::Claimed;
            true
        }
    }

    /// Takes the decision on a step's input; gives the messages of the step
    /// where it runs.
    pub fn decide(&mut self, decision: PreStepDecision) -> (r: Option<Vec<Message>>)
        requires
            old(self).phase == TurnPhase::Claimed,
        ensures
            *final(self) == (match decision {
                PreStepDecision::Reject => after_decision(*old(self), true, false),
                PreStepDecision::Enter { messages } => after_decision(
                    *old(self),
                    false,
                    messages@.len() == 0,
                ),
            }),
            r is Some == (final(self).phase == TurnPhase::Running),
            r matches Some(m) ==> (decision matches PreStepDecision::Enter { messages } && m
                == messages),
    {
        match decision {
            PreStepDecision::Reject => {
                self.ends = Some(TurnEndReason::Blocked);
                self.phase = TurnPhase::Over;
                None
            },
            PreStepDecision::Enter { messages } => {
                let none: bool = messages.len() == 0;
                if self.step > 1 && self.ends.is_some() && none {
                    self.phase = TurnPhase::Over;
                    return None;
                }
                if self.step == 1 && none {
                    self.ends = Some(TurnEndReason::Completed);
                    self.phase = TurnPhase::Over;
                    return None;
                }
                self.phase = TurnPhase::Running;
                Some(messages)
            },
        }
    }

    /// Closes a step; says whether the turn stops, which is when its observers
    /// are asked.
    pub fn finish_step(&mut self, end: StepEnd, waiting: bool) -> (stops: bool)
        requires
            old(self).phase == TurnPhase::Running,
        ensures
            *final(self) == after_step(*old(self), end, waiting),
            stops == (final(self).phase == TurnPhase::Over),
    {
        match end {
            StepEnd::NeedsAnotherStep => {},
            StepEnd::Concluded(reason) => {
                let out_of_tokens: bool = match &self.ends {
                    Some(TurnEndReason::MaxTokens) => true,
                    _ => false,
                };
                if !out_of_tokens {
                    self.ends = Some(reason);
                }
            },
        }
        if self.ends.is_some() && !waiting {
            self.phase = TurnPhase::Over;
            true
        } else {
            self.target = InboxTarget::NextStep;
            self.phase = TurnPhase::Head;
            false
        }
    }

    /// What the turn ended with.
    pub fn reason(self) -> (r: TurnEndReason)
        requires
            self.phase == TurnPhase::Over,
        ensures
            r == (match self.ends {
                Some(reason) => reason,
                None => TurnEndReason::Completed,
            }),
    {
        match self.ends {
            Some(reason) => reason,
            None => TurnEndReason::Completed,
        }
    }
}

/// Whether the row at `at` of `rows` is the system message for `prompt` that
/// replaces what stood at `replace`.
pub open spec fn system_row(
    row: SessionEvent,
    turn: u64,
    step: u64,
    prompt: Seq<char>,
    replace: Option<u64>,
) -> bool {
    row matches SessionEvent::SystemMessage { turn: t, step: s, message, replace: r } && t == turn
        && s == step && r == replace && is_system_prompt(message, prompt)
}

/// Whether `rows` are what a step logs before it asks the model: its start;
/// the system prompt where the log holds none or another; the messages; and,
/// behind them where there are any, the announcement of another model where the
/// route changed.
pub open spec fn opens_step(
    rows: Seq<SessionEvent>,
    turn: u64,
    step: u64,
    prompt: Seq<char>,
    head: Option<(u64, Seq<char>)>,
    messages: Seq<Message>,
    previous: Option<(Seq<char>, Seq<char>)>,
    selected: (Seq<char>, Seq<char>),
) -> bool {
    let fresh = match head {
        Some((_, s)) => s != prompt,
        None => true,
    };
    let replace = match head {
        Some((seq, _)) => Some(seq),
        None => None,
    };
    let base = if fresh {
        2int
    } else {
        1int
    };
    let switched = messages.len() > 0 && previous is Some && previous != Some(selected);
    let n = messages.len() as int;
    &&& rows.len() == base + n + (if switched {
        1int
    } else {
        0int
    })
    &&& rows[0] == (SessionEvent::StepStart { turn, step, time_ms: None })
    &&& (fresh ==> system_row(rows[1], turn, step, prompt, replace))
    &&& forall|i: int|
        0 <= i < n ==> rows[base + i] == SessionEvent::UserMessage(#[trigger] messages[i])
    &&& (switched ==> (rows[base + n] matches SessionEvent::UserMessage(m) && is_switch_notice(
        m,
        previous->0,
        selected,
    )))
}

/// What a step logs before it asks the model. `next_seq` is the place that the
/// next event takes; the tracked system prompt moves along.
pub fn open_step(
    turn: u64,
    step: u64,
    next_seq: u64,
    rendered: &str,
    head: &mut Option<(u64, String)>,
    messages: Vec<Message>,
    previous: Option<(&str, &str)>,
    selected: (&str, &str),
) -> (rows: Vec<SessionEvent>)
    requires
        next_seq < u64::MAX,
    ensures
        opens_step(
            rows@,
            turn,
            step,
            rendered@,
            session::head_view(*old(head)),
            messages@,
            match previous {
                Some((p, m)) => Some((p@, m@)),
                None => None,
            },
            (selected.0@, selected.1@),
        ),
        session::head_view(*final(head)) == (match session::head_view(*old(head)) {
            Some((seq, s)) => if s == rendered@ {
                Some((seq, s))
            } else {
                Some(((next_seq + 1) as u64, rendered@))
            },
            None => Some(((next_seq + 1) as u64, rendered@)),
        }),
{
    let mut rows: Vec<SessionEvent> = Vec::new();
    rows.push(SessionEvent::StepStart { turn, step, time_ms: None });
    let mut fresh: bool = true;
    let mut replace: Option<u64> = None;
    match &*head {
        Some((seq, s)) => {
            fresh = !text::same(s.as_str(), rendered);
            replace = Some(*seq);
        },
        None => {},
    }
    if fresh {
        rows.push(
            SessionEvent::SystemMessage {
                turn,
                step,
                message: system_prompt_message(rendered),
                replace,
            },
        );
        *head = Some((next_seq + 1, rendered.to_owned()));
    }
    let ghost base = rows@;
    let ghost all = messages@;
    let some_new: bool = messages.len() > 0;
    for m in it: messages
        invariant
            it.seq() == all,
            rows@.len() == base.len() + it.index(),
            forall|i: int| 0 <= i < base.len() ==> rows@[i] == base[i],
            forall|i: int|
                0 <= i < it.index() ==> rows@[base.len() + i] == SessionEvent::UserMessage(
                    #[trigger] all[i],
                ),
    {
        rows.push(SessionEvent::UserMessage(m));
    }
    let ghost body = rows@;
    assert(body.len() == base.len() + all.len());
    assert(body[0] == base[0]);
    assert(fresh ==> body[1] == base[1]);
    match previous {
        Some((p, m)) => {
            let kept: bool = text::same(p, selected.0) && text::same(m, selected.1);
            if some_new && !kept {
                rows.push(
                    SessionEvent::UserMessage(model_switch_notice_message((p, m), selected)),
                );
            }
        },
        None => {},
    }
    proof {
        assert forall|i: int| 0 <= i < all.len() implies rows@[base.len() + i]
            == SessionEvent::UserMessage(#[trigger] all[i]) by {
            assert(body[base.len() + i] == SessionEvent::UserMessage(all[i]));
        }
        assert(rows@[0] == body[0]);
        assert(fresh ==> rows@[1] == body[1]);
        assert(fresh ==> base.len() == 2);
        assert(!fresh ==> base.len() == 1);
        assert(fresh ==> system_row(rows@[1], turn, step, rendered@, replace));
    }
    rows
}

// ---------------------------------------------------------------------------
// steps
// ---------------------------------------------------------------------------

/// How a streamed answer ended.
pub enum FinishReason {
    Stop,
    MaxTokens,
    Error(Failure),
    Aborted(Failure),
}

/// What observers see of a piece of an answer.
pub fn chunk_event(chunk: &StreamChunk) -> (r: Option<AgentEvent>)
    ensures
        r == (match *chunk {
            StreamChunk::TextDelta(s) => Some(AgentEvent::TextDelta { text: s }),
            StreamChunk::ReasoningDelta(s) => Some(AgentEvent::ReasoningDelta { text: s }),
            StreamChunk::Other => None,
        }),
{
    match chunk {
        StreamChunk::TextDelta(s) => Some(AgentEvent::TextDelta { text: s.clone() }),
        StreamChunk::ReasoningDelta(s) => Some(AgentEvent::ReasoningDelta { text: s.clone() }),
        StreamChunk::Other => None,
    }
}

/// Whether a row is the model's answer with the given parts.
pub open spec fn answer_row(
    row: SessionEvent,
    turn: u64,
    step: u64,
    content: Vec<ContentBlock>,
    provider: Seq<char>,
    model: Seq<char>,
    interrupted: bool,
    usage: Option<TokenUsage>,
) -> bool {
    row matches SessionEvent::AssistantMessage {
        turn: t,
        step: s,
        message,
        interrupted: i,
        usage: u,
        time_ms,
    } && t == turn && s == step && i == interrupted && u == usage && time_ms is None && message.role
        == MessageRole::Assistant && message.content == content && comes_from(
        message.source,
        provider,
        model,
    )
}

/// Whether a message comes from a model.
pub open spec fn comes_from(source: MessageSource, provider: Seq<char>, model: Seq<char>) -> bool {
    source matches MessageSource::Model { provider: p, model: m } && p@ == provider && m@ == model
}

/// Whether `e` is what observers see of the model's answer.
pub open spec fn shows_answer(
    e: AgentEvent,
    content: Seq<ContentBlock>,
    provider: Seq<char>,
    model: Seq<char>,
    usage: Option<TokenUsage>,
) -> bool {
    e matches AgentEvent::AssistantMessage { message, usage: u } && u == usage && message.role
        == MessageRole::Assistant && session::same_content(message.content@, content) && comes_from(
        message.source,
        provider,
        model,
    )
}

fn answer_message(content: Vec<ContentBlock>, provider: &str, model: &str) -> (r: Message)
    ensures
        r.role == MessageRole::Assistant,
        r.content == content,
        comes_from(r.source, provider@, model@),
{
    Message {
        role: MessageRole::Assistant,
        content,
        source: MessageSource::Model { provider: provider.to_owned(), model: model.to_owned() },
    }
}

/// What observers see of the model's answer.
pub fn answer_event(
    content: Vec<ContentBlock>,
    provider: &str,
    model: &str,
    usage: Option<TokenUsage>,
) -> (r: AgentEvent)
    ensures
        shows_answer(r, content@, provider@, model@, usage),
{
    AgentEvent::AssistantMessage { message: answer_message(content, provider, model), usage }
}

fn make_answer(
    turn: u64,
    step: u64,
    content: Vec<ContentBlock>,
    provider: &str,
    model: &str,
    interrupted: bool,
    usage: Option<TokenUsage>,
) -> (r: SessionEvent)
    ensures
        answer_row(r, turn, step, content, provider@, model@, interrupted, usage),
{
    SessionEvent::AssistantMessage {
        turn,
        step,
        message: answer_message(content, provider, model),
        interrupted,
        usage,
        time_ms: None,
    }
}

/// What an aborted step logs: what was said so far, where anything was.
pub fn interrupted_row(
    turn: u64,
    step: u64,
    content: Vec<ContentBlock>,
    provider: &str,
    model: &str,
    usage: Option<TokenUsage>,
) -> (r: Option<SessionEvent>)
    ensures
        r is None == (content@.len() == 0),
        r matches Some(row) ==> answer_row(
            row,
            turn,
            step,
            content,
            provider@,
            model@,
            true,
            usage,
        ),
{
    if content.len() == 0 {
        None
    } else {
        Some(make_answer(turn, step, content, provider, model, true, usage))
    }
}

/// A tool call: its id, the tool's name and the arguments.
pub type Call = (String, String, String);

/// The tool calls among the parts of a message, in order.
pub open spec fn calls_in(content: Seq<ContentBlock>) -> Seq<Call>
    decreases content.len(),
{
    if content.len() == 0 {
        Seq::empty()
    } else {
        match content.last() {
            ContentBlock::ToolCall { id, name, arguments } => calls_in(content.drop_last()).push(
                (id, name, arguments),
            ),
            _ => calls_in(content.drop_last()),
        }
    }
}

fn collect_calls(content: &Vec<ContentBlock>) -> (r: Vec<Call>)
    ensures
        r@ == calls_in(content@),
{
    let mut r: Vec<Call> = Vec::new();
    let mut i: usize = 0;
    assert(content@.take(0) =~= Seq::<ContentBlock>::empty());
    while i < content.len()
        invariant
            i <= content@.len(),
            r@ == calls_in(content@.take(i as int)),
        decreases content@.len() - i,
    {
        let ghost next = content@.take(i + 1);
        assert(next.drop_last() =~= content@.take(i as int));
        match &content[i] {
            ContentBlock::ToolCall { id, name, arguments } => {
                r.push((id.clone(), name.clone(), arguments.clone()));
            },
            _ => {},
        }
        i = i + 1;
    }
    assert(content@.take(i as int) =~= content@);
    r
}

/// What follows a finished request.
pub enum StepOutcome {
    /// The request is made again.
    Retry,
    /// The failure is reported and ends the turn.
    Failed(Failure),
    /// The answer is logged and the step ends.
    Done { row: SessionEvent, reason: TurnEndReason },
    /// The answer is logged and its tool calls are run.
    Tools { row: SessionEvent, calls: Vec<Call> },
}

/// What follows a request that finished with `finish`; `retry` is what was
/// decided on a failure, and `blocks` the parts of the answer.
pub fn settle_request(
    turn: u64,
    step: u64,
    finish: FinishReason,
    retry: bool,
    blocks: Result<Vec<ContentBlock>, Failure>,
    provider: &str,
    model: &str,
    usage: Option<TokenUsage>,
) -> (r: StepOutcome)
    ensures
        match finish {
            FinishReason::Error(failure) => r == (if retry {
                StepOutcome::Retry
            } else {
                StepOutcome::Failed(failure)
            }),
            FinishReason::Aborted(failure) => r == (if retry {
                StepOutcome::Retry
            } else {
                StepOutcome::Failed(failure)
            }),
            _ => match blocks {
                Err(failure) => r == StepOutcome::Failed(failure),
                Ok(content) => if finish is MaxTokens {
                    r matches StepOutcome::Done { row, reason } && reason
                        == TurnEndReason::MaxTokens && answer_row(
                        row,
                        turn,
                        step,
                        content,
                        provider@,
                        model@,
                        false,
                        usage,
                    )
                } else if calls_in(content@).len() == 0 {
                    r matches StepOutcome::Done { row, reason } && reason
                        == TurnEndReason::Completed && answer_row(
                        row,
                        turn,
                        step,
                        content,
                        provider@,
                        model@,
                        false,
                        usage,
                    )
                } else {
                    r matches StepOutcome::Tools { row, calls } && calls@ == calls_in(content@)
                        && answer_row(
                        row,
                        turn,
                        step,
                        content,
                        provider@,
                        model@,
                        false,
                        usage,
                    )
                },
            },
        },
{
    let out_of_tokens: bool = match &finish {
        FinishReason::MaxTokens => true,
        _ => false,
    };
    match finish {
        FinishReason::Error(failure) => {
            if retry {
                return StepOutcome::Retry;
            }
            return StepOutcome::Failed(failure);
        },
        FinishReason::Aborted(failure) => {
            if retry {
                return StepOutcome::Retry;
            }
            return StepOutcome::Failed(failure);
        },
        _ => {},
    }
    let content: Vec<ContentBlock> = match blocks {
        Ok(content) => content,
        Err(failure) => {
            return StepOutcome::Failed(failure);
        },
    };
    let calls: Vec<Call> = collect_calls(&content);
    let row: SessionEvent = make_answer(turn, step, content, provider, model, false, usage);
    if out_of_tokens {
        StepOutcome::Done { row, reason: TurnEndReason::MaxTokens }
    } else if calls.len() == 0 {
        StepOutcome::Done { row, reason: TurnEndReason::Completed }
    } else {
        StepOutcome::Tools { row, calls }
    }
}

/// What a tool gave back.
pub struct ToolAnswer {
    pub content: Vec<ResultPart>,
    pub is_error: bool,
    pub concludes_turn: bool,
    pub presentation: Option<json::Json>,
}

/// Whether an answer is the one for a tool that does not exist.
pub open spec fn is_missing_tool(a: ToolAnswer, name: Seq<char>) -> bool {
    &&& a.is_error
    &&& !a.concludes_turn
    &&& a.presentation is None
    &&& a.content@.len() == 1
    &&& (a.content@[0] matches ResultPart::Text(s) && s@ == "no tool \""@ + name + "\""@)
}

/// The answer of a tool, or the one for a tool that does not exist.
pub fn tool_answer(name: &str, answer: Option<ToolAnswer>) -> (r: ToolAnswer)
    ensures
        match answer {
            Some(a) => r == a,
            None => is_missing_tool(r, name@),
        },
{
    match answer {
        Some(a) => a,
        None => {
            let mut content: Vec<ResultPart> = Vec::new();
            content.push(ResultPart::Text(text::concat3("no tool \"", name, "\"")));
            ToolAnswer { content, is_error: true, concludes_turn: false, presentation: None }
        },
    }
}

/// What is logged and shown when a tool is called.
pub fn tool_call_rows(turn: u64, step: u64, call: &Call) -> (r: (SessionEvent, AgentEvent))
    ensures
        r.0 == (SessionEvent::ToolCall {
            turn,
            step,
            call_id: call.0,
            name: call.1,
            arguments: call.2,
        }),
        r.1 == (AgentEvent::ToolCall {
            tool_call_id: call.0,
            name: call.1,
            arguments: call.2,
        }),
{
    (
        SessionEvent::ToolCall {
            turn,
            step,
            call_id: call.0.clone(),
            name: call.1.clone(),
            arguments: call.2.clone(),
        },
        AgentEvent::ToolCall {
            tool_call_id: call.0.clone(),
            name: call.1.clone(),
            arguments: call.2.clone(),
        },
    )
}

/// Whether a row is the answer of a tool.
pub open spec fn result_row(
    row: SessionEvent,
    turn: u64,
    step: u64,
    call_id: String,
    answer: ToolAnswer,
) -> bool {
    row matches SessionEvent::ToolResult { turn: t, step: s, message, time_ms, presentation } && t
        == turn && s == step && time_ms is None && presentation == answer.presentation
        && message.role == MessageRole::Tool && message.source == MessageSource::Tool
        && message.content@ == seq![
        ContentBlock::ToolResult {
            tool_call_id: call_id,
            content: answer.content,
            is_error: Some(answer.is_error),
        },
    ]
}

/// What is logged and shown when a tool has answered.
pub fn tool_result_rows(turn: u64, step: u64, call_id: &String, answer: ToolAnswer) -> (r: (
    SessionEvent,
    AgentEvent,
))
    ensures
        result_row(r.0, turn, step, *call_id, answer),
        r.1 == (AgentEvent::ToolResult { tool_call_id: *call_id, is_error: answer.is_error }),
{
    let is_error: bool = answer.is_error;
    let mut content: Vec<ContentBlock> = Vec::new();
    content.push(
        ContentBlock::ToolResult {
            tool_call_id: call_id.clone(),
            content: answer.content,
            is_error: Some(is_error),
        },
    );
    assert(content@ =~= seq![
        ContentBlock::ToolResult {
            tool_call_id: *call_id,
            content: answer.content,
            is_error: Some(answer.is_error),
        },
    ]);
    (
        SessionEvent::ToolResult {
            turn,
            step,
            message: Message { role: MessageRole::Tool, content, source: MessageSource::Tool },
            time_ms: None,
            presentation: answer.presentation,
        },
        AgentEvent::ToolResult { tool_call_id: call_id.clone(), is_error },
    )
}

/// Whether one of the tools concluded the turn.
pub open spec fn any_concluded(answers: Seq<bool>) -> bool {
    exists|i: int| 0 <= i < answers.len() && #[trigger] answers[i]
}

/// How a step with tool calls ends: the turn is completed where one of the
/// tools concluded it.
pub fn after_tools(concluded: &Vec<bool>) -> (r: StepEnd)
    ensures
        r == (if any_concluded(concluded@) {
            StepEnd::Concluded(TurnEndReason::Completed)
        } else {
            StepEnd::NeedsAnotherStep
        }),
{
    let mut i: usize = 0;
    while i < concluded.len()
        invariant
            i <= concluded@.len(),
            forall|k: int| 0 <= k < i ==> !#[trigger] concluded@[k],
        decreases concluded@.len() - i,
    {
        if concluded[i] {
            assert(concluded@[i as int]);
            return StepEnd::Concluded(TurnEndReason::Completed);
        }
        i = i + 1;
    }
    StepEnd::NeedsAnotherStep
}

// ---------------------------------------------------------------------------
// requests
// ---------------------------------------------------------------------------

/// What a model is told in front of the messages: the system prompt and the
/// tools.
pub struct PromptAssembly {
    pub system: String,
    pub tools: Vec<ToolSchema>,
}

/// What a model is asked with, but for the messages.
pub struct GenerateOptions {
    pub provider: String,
    pub model: String,
    pub system: Option<String>,
    pub tools: Option<Vec<ToolSchema>>,
    pub max_tokens: Option<u32>,
    /// The bits of the temperature, a floating-point number.
    pub temperature: Option<u64>,
    pub session_id: Option<String>,
}

/// Whether two headers say the same.
pub open spec fn same_header(a: RequestHeader, b: RequestHeader) -> bool {
    a.deep_view() == b.deep_view()
}

/// The tools of a request, where there are any.
pub open spec fn tools_or_none(tools: Seq<ToolSchemaView>) -> Option<Seq<ToolSchemaView>> {
    if tools.len() == 0 {
        None
    } else {
        Some(tools)
    }
}

/// The system prompt of a request, where it says anything.
pub open spec fn system_or_none(system: Seq<char>) -> Option<Seq<char>> {
    if system.len() == 0 {
        None
    } else {
        Some(system)
    }
}

/// The header of a request: how the model is asked and the tools, without the
/// system prompt.
pub open spec fn header_of(config: CallConfigView, tools: Seq<ToolSchemaView>) -> HeaderView {
    HeaderView { config, system: None, tools: tools_or_none(tools) }
}

fn copy_schema(t: &ToolSchema) -> (r: ToolSchema)
    ensures
        r.deep_view() == t.deep_view(),
{
    ToolSchema {
        name: t.name.clone(),
        description: t.description.clone(),
        parameters: t.parameters.clone(),
    }
}

/// A copy of the tools, where there are any.
fn copy_tools(tools: &Vec<ToolSchema>) -> (r: Option<Vec<ToolSchema>>)
    ensures
        r.deep_view() == tools_or_none(tools.deep_view()),
{
    let ghost all = tools.deep_view();
    assert(all.len() == tools@.len());
    if tools.len() == 0 {
        return None;
    }
    let mut out: Vec<ToolSchema> = Vec::new();
    let mut i: usize = 0;
    while i < tools.len()
        invariant
            i <= tools@.len(),
            all == tools.deep_view(),
            out.deep_view() == all.take(i as int),
        decreases tools@.len() - i,
    {
        let ghost before = out.deep_view();
        let one: ToolSchema = copy_schema(&tools[i]);
        out.push(one);
        i = i + 1;
        assert(out.deep_view() =~= before.push(one.deep_view()));
        assert(out.deep_view() =~= all.take(i as int));
    }
    assert(all.take(i as int) =~= all);
    Some(out)
}

/// The header of a request and what the model is asked with.
pub fn request_parts(
    config: CallConfig,
    assembly: &PromptAssembly,
    options: &AgentOptions,
    session_id: &str,
) -> (r: (RequestHeader, GenerateOptions))
    ensures
        r.0.deep_view() == header_of(config.deep_view(), assembly.tools.deep_view()),
        r.1.provider@ == options.provider@,
        r.1.model@ == options.model@,
        r.1.system.deep_view() == system_or_none(assembly.system@),
        r.1.tools.deep_view() == tools_or_none(assembly.tools.deep_view()),
        r.1.max_tokens == config.max_tokens,
        r.1.temperature == config.temperature,
        r.1.session_id.deep_view() == Some(session_id@),
{
    let max_tokens: Option<u32> = config.max_tokens;
    let temperature: Option<u64> = config.temperature;
    let system: Option<String> = if assembly.system.as_str().is_empty() {
        None
    } else {
        Some(assembly.system.clone())
    };
    let header = RequestHeader { config, system: None, tools: copy_tools(&assembly.tools) };
    let asked = GenerateOptions {
        provider: options.provider.clone(),
        model: options.model.clone(),
        system,
        tools: copy_tools(&assembly.tools),
        max_tokens,
        temperature,
        session_id: Some(session_id.to_owned()),
    };
    (header, asked)
}

fn schemas_agree(a: &Vec<ToolSchema>, b: &Vec<ToolSchema>) -> (r: bool)
    ensures
        r == (a.deep_view() == b.deep_view()),
{
    let ghost x = a.deep_view();
    let ghost y = b.deep_view();
    assert(x.len() == a@.len() && y.len() == b@.len());
    if a.len() != b.len() {
        return false;
    }
    let mut i: usize = 0;
    while i < a.len()
        invariant
            i <= a@.len(),
            a@.len() == b@.len(),
            x == a.deep_view(),
            y == b.deep_view(),
            forall|k: int| 0 <= k < i ==> x[k] == y[k],
        decreases a@.len() - i,
    {
        assert(x[i as int] == a@[i as int].deep_view());
        assert(y[i as int] == b@[i as int].deep_view());
        if !(text::same(a[i].name.as_str(), b[i].name.as_str()) && text::same(
            a[i].description.as_str(),
            b[i].description.as_str(),
        ) && text::same(a[i].parameters.as_str(), b[i].parameters.as_str())) {
            assert(x[i as int] != y[i as int]);
            return false;
        }
        i = i + 1;
    }
    assert(x =~= y);
    true
}

fn texts_agree(a: &Option<String>, b: &Option<String>) -> (r: bool)
    ensures
        r == (a.deep_view() == b.deep_view()),
{
    match (a, b) {
        (Some(x), Some(y)) => text::same(x.as_str(), y.as_str()),
        (None, None) => true,
        _ => false,
    }
}

fn headers_agree(a: &RequestHeader, b: &RequestHeader) -> (r: bool)
    ensures
        r == same_header(*a, *b),
{
    let limits: bool = match (a.config.max_tokens, b.config.max_tokens) {
        (Some(x), Some(y)) => x == y,
        (None, None) => true,
        _ => false,
    };
    let temperatures: bool = match (a.config.temperature, b.config.temperature) {
        (Some(x), Some(y)) => x == y,
        (None, None) => true,
        _ => false,
    };
    let routes: bool = text::same(a.config.provider.as_str(), b.config.provider.as_str())
        && text::same(a.config.model.as_str(), b.config.model.as_str());
    let tools: bool = match (&a.tools, &b.tools) {
        (Some(x), Some(y)) => schemas_agree(x, y),
        (None, None) => true,
        _ => false,
    };
    limits && temperatures && routes && tools && texts_agree(&a.system, &b.system)
}

/// The header that a request logs: the first one, and after that each one that
/// differs from the one before.
pub fn header_row(current: Option<&RequestHeader>, header: RequestHeader) -> (r: Option<
    SessionEvent,
>)
    ensures
        r == (match current {
            None => Some(
                SessionEvent::RequestHeader { header, reason: HeaderReason::Initial },
            ),
            Some(c) => if same_header(*c, header) {
                None
            } else {
                Some(SessionEvent::RequestHeader { header, reason: HeaderReason::Change })
            },
        }),
{
    match current {
        None => Some(SessionEvent::RequestHeader { header, reason: HeaderReason::Initial }),
        Some(c) => {
            if headers_agree(c, &header) {
                None
            } else {
                Some(SessionEvent::RequestHeader { header, reason: HeaderReason::Change })
            }
        },
    }
}

// ---------------------------------------------------------------------------
// summaries
// ---------------------------------------------------------------------------

/// Whether messages can be parted in front of the one at `at`: it is not the
/// answer of a tool, whose call would stand on the other side.
pub open spec fn parts_no_pair(answers: Seq<bool>, at: int) -> bool {
    at <= 0 || at >= answers.len() || !answers[at]
}

/// How many messages, from the first on, a summary stands for: as many as it can
/// where it leaves `keep` alone and parts no call from its answers. `answers`
/// says of each message whether it is the answer of a tool.
pub fn pair_safe_boundary(answers: &Vec<bool>, keep: usize) -> (r: usize)
    ensures
        r == 0 || r + keep <= answers@.len(),
        parts_no_pair(answers@, r as int),
        forall|n: int|
            r < n && n + keep <= answers@.len() ==> !#[trigger] parts_no_pair(answers@, n),
{
    if keep >= answers.len() {
        return 0;
    }
    let mut r: usize = answers.len() - keep;
    while r > 0 && r < answers.len() && answers[r]
        invariant
            r + keep <= answers@.len(),
            forall|n: int|
                r < n && n + keep <= answers@.len() ==> !#[trigger] parts_no_pair(answers@, n),
        decreases r,
    {
        r = r - 1;
    }
    r
}

/// Whether a turn starts with a summary of earlier messages: where there is a
/// threshold, more messages than are left alone, and more tokens than the
/// threshold.
pub fn should_compact(threshold: u64, keep_recent: usize, messages: usize, tokens: u64) -> (r: bool)
    ensures
        r == (threshold != 0 && messages > keep_recent && tokens > threshold),
{
    threshold != 0 && messages > keep_recent && tokens > threshold
}

/// Whether a summary that was asked for is made: only while the agent is idle,
/// and where there are more messages than are left alone.
pub fn may_compact_now(status: AgentStatus, keep_recent: usize, messages: usize) -> (r: bool)
    ensures
        r == (status == AgentStatus::Idle && messages > keep_recent),
{
    status == AgentStatus::Idle && messages > keep_recent
}

/// Whether a row is the summary of the first `boundary` of the messages at
/// `seqs`.
pub open spec fn is_checkpoint(
    row: SessionEvent,
    seqs: Seq<u64>,
    boundary: int,
    summary: String,
    nanos: u128,
    tokens: u64,
    provider: Seq<char>,
    model: Seq<char>,
) -> bool {
    row matches SessionEvent::Compaction(c) && c.before_seq == seqs[boundary - 1] && c.summary
        == summary && c.id@ == "cp-"@ + hex(nanos as nat, 32) && c.first_seq == seqs[0]
        && c.shadowed_seqs@ == seqs.take(boundary) && c.tokens == tokens && c.provider@ == provider
        && c.model@ == model
}

/// What a summary logs: nothing where it covers no message, else where it
/// ends, what it says, and what it stands for.
pub fn checkpoint_row(
    seqs: &Vec<u64>,
    boundary: usize,
    summary: String,
    nanos: u128,
    tokens: u64,
    provider: &str,
    model: &str,
) -> (r: Option<SessionEvent>)
    requires
        boundary <= seqs@.len(),
    ensures
        r is None == (boundary == 0),
        r matches Some(row) ==> is_checkpoint(
            row,
            seqs@,
            boundary as int,
            summary,
            nanos,
            tokens,
            provider@,
            model@,
        ),
{
    if boundary == 0 {
        return None;
    }
    let mut shadowed: Vec<u64> = Vec::new();
    let mut i: usize = 0;
    while i < boundary
        invariant
            i <= boundary <= seqs@.len(),
            shadowed@ == seqs@.take(i as int),
        decreases boundary - i,
    {
        shadowed.push(seqs[i]);
        i = i + 1;
        assert(shadowed@ =~= seqs@.take(i as int));
    }
    let stamp: String = uuid_simple(nanos);
    Some(
        SessionEvent::Compaction(
            Checkpoint {
                before_seq: seqs[boundary - 1],
                summary,
                id: text::concat2("cp-", stamp.as_str()),
                first_seq: seqs[0],
                shadowed_seqs: shadowed,
                tokens,
                provider: provider.to_owned(),
                model: model.to_owned(),
            },
        ),
    )
}

// ---------------------------------------------------------------------------
// laws
// ---------------------------------------------------------------------------

/// What can happen to a turn.
pub enum TurnInput {
    Head { aborted: bool },
    Decision { rejected: bool, none: bool },
    Step { end: StepEnd, waiting: bool },
}

/// Whether a turn takes an input where it stands.
pub open spec fn takes(t: Turn, i: TurnInput) -> bool {
    match i {
        TurnInput::Head { .. } => t.phase == TurnPhase::Head && t.step < u64::MAX,
        TurnInput::Decision { .. } => t.phase == TurnPhase::Claimed,
        TurnInput::Step { .. } => t.phase == TurnPhase::Running,
    }
}

/// The turn after an input.
pub open spec fn turn_next(t: Turn, i: TurnInput) -> Turn {
    match i {
        TurnInput::Head { aborted } => after_head(t, aborted),
        TurnInput::Decision { rejected, none } => after_decision(t, rejected, none),
        TurnInput::Step { end, waiting } => after_step(t, end, waiting),
    }
}

/// A mark that a turn leaves in the log.
pub enum Mark {
    TurnStart,
    StepStart(int),
    StepEnd(int),
    TurnEnd,
}

/// The marks that an input leaves: a step starts when it is let in and ends
/// when it has run, and a turn that is over ends.
pub open spec fn marks_of(t: Turn, i: TurnInput) -> Seq<Mark> {
    let next = turn_next(t, i);
    let step = match i {
        TurnInput::Head { .. } => Seq::empty(),
        TurnInput::Decision { .. } => if next.phase == TurnPhase::Running {
            seq![Mark::StepStart(next.step as int)]
        } else {
            Seq::empty()
        },
        TurnInput::Step { .. } => seq![Mark::StepEnd(t.step as int)],
    };
    if next.phase == TurnPhase::Over {
        step.push(Mark::TurnEnd)
    } else {
        step
    }
}

/// A turn and its marks after a sequence of inputs; nothing where one of them
/// was not taken.
pub open spec fn turn_run(turn: u64, inputs: Seq<TurnInput>) -> Option<(Turn, Seq<Mark>)>
    decreases inputs.len(),
{
    if inputs.len() == 0 {
        Some((fresh_turn(turn), seq![Mark::TurnStart]))
    } else {
        match turn_run(turn, inputs.drop_last()) {
            Some((t, marks)) => if takes(t, inputs.last()) {
                Some((turn_next(t, inputs.last()), marks + marks_of(t, inputs.last())))
            } else {
                None
            },
            None => None,
        }
    }
}

/// The marks of `n` whole steps.
pub open spec fn step_marks(n: nat) -> Seq<Mark>
    decreases n,
{
    if n == 0 {
        Seq::empty()
    } else {
        step_marks((n - 1) as nat).push(Mark::StepStart(n as int)).push(Mark::StepEnd(n as int))
    }
}

/// The marks of a turn with `n` whole steps, where it stands in `phase`.
pub open spec fn turn_marks(n: nat, phase: TurnPhase) -> Seq<Mark> {
    let whole = seq![Mark::TurnStart] + step_marks(n);
    match phase {
        TurnPhase::Running => whole.push(Mark::StepStart(n as int + 1)),
        TurnPhase::Over => whole.push(Mark::TurnEnd),
        _ => whole,
    }
}

/// However a turn goes, its log is well bracketed: one start, then whole steps
/// numbered from 1 on, the last of them open while it runs, and one end exactly
/// when the turn is over.
pub proof fn turns_are_well_bracketed(turn: u64, inputs: Seq<TurnInput>)
    ensures
        turn_run(turn, inputs) matches Some((t, marks)) ==> exists|n: nat|
            marks == #[trigger] turn_marks(n, t.phase) && (t.step == n || t.step == n + 1) && (
            t.phase == TurnPhase::Head ==> t.step == n) && (t.phase == TurnPhase::Running ==> t.step
                == n + 1) && (t.phase == TurnPhase::Claimed ==> t.step == n + 1),
    decreases inputs.len(),
{
    if inputs.len() == 0 {
        assert(seq![Mark::TurnStart] =~= turn_marks(0, TurnPhase::Head));
        assert(fresh_turn(turn).step == 0nat);
    } else {
        turns_are_well_bracketed(turn, inputs.drop_last());
        if turn_run(turn, inputs) is Some {
            let (t, marks) = turn_run(turn, inputs.drop_last())->0;
            let i = inputs.last();
            let next = turn_next(t, i);
            let n = choose|n: nat|
                marks == #[trigger] turn_marks(n, t.phase) && (t.step == n || t.step == n + 1) && (
                t.phase == TurnPhase::Head ==> t.step == n) && (t.phase == TurnPhase::Running
                    ==> t.step == n + 1) && (t.phase == TurnPhase::Claimed ==> t.step == n + 1);
            let all = marks + marks_of(t, i);
            match i {
                TurnInput::Step { .. } => {
                    assert(step_marks(n + 1) == step_marks(n).push(
                        Mark::StepStart(n as int + 1),
                    ).push(Mark::StepEnd(n as int + 1)));
                    assert(all =~= turn_marks(n + 1, next.phase));
                },
                _ => {
                    assert(all =~= turn_marks(n, next.phase));
                },
            }
        }
    }
}

/// A turn that ran out of tokens says so, whatever later steps conclude.
pub proof fn running_out_of_tokens_sticks(t: Turn, end: StepEnd, waiting: bool)
    requires
        t.ends == Some(TurnEndReason::MaxTokens),
    ensures
        after_step(t, end, waiting).ends == Some(TurnEndReason::MaxTokens),
{
}

/// A turn does not stop while input waits for its next step.
pub proof fn waiting_input_keeps_the_turn_open(t: Turn, end: StepEnd)
    ensures
        after_step(t, end, true).phase == TurnPhase::Head,
        after_step(t, end, true).target == InboxTarget::NextStep,
{
}

/// A route is announced from both sides in the same way: seen from itself it
/// is its model.
pub proof fn route_seen_from_itself(provider: Seq<char>, model: Seq<char>)
    ensures
        route_name(provider, model, provider) == model,
{
}

/// The calls of an answer are the tool calls among its parts: none is left out,
/// they keep their order, and each has its own id, name and arguments.
pub proof fn every_call_is_found(content: Seq<ContentBlock>)
    ensures
        calls_in(content) == content.filter(|b: ContentBlock| b is ToolCall).map_values(
            |b: ContentBlock| (b->ToolCall_id, b->ToolCall_name, b->ToolCall_arguments),
        ),
    decreases content.len(),
{
    reveal(Seq::filter);
    let pick = |b: ContentBlock| b is ToolCall;
    let call = |b: ContentBlock| (b->ToolCall_id, b->ToolCall_name, b->ToolCall_arguments);
    if content.len() > 0 {
        every_call_is_found(content.drop_last());
        let head = content.drop_last().filter(pick);
        if pick(content.last()) {
            assert(head.push(content.last()).map_values(call) =~= head.map_values(call).push(
                call(content.last()),
            ));
        }
    }
    assert(calls_in(content) =~= content.filter(pick).map_values(call));
}

/// The calls of an answer that came in two halves are those of the one and then
/// those of the other; a call by itself is its only one.
pub proof fn calls_of_halves_add_up(
    a: Seq<ContentBlock>,
    b: Seq<ContentBlock>,
    id: String,
    name: String,
    arguments: String,
)
    ensures
        calls_in(a + b) == calls_in(a) + calls_in(b),
        calls_in(seq![ContentBlock::ToolCall { id, name, arguments }]) == seq![
            (id, name, arguments),
        ],
    decreases b.len(),
{
    reveal_with_fuel(calls_in, 2);
    let one = seq![ContentBlock::ToolCall { id, name, arguments }];
    assert(one.drop_last() =~= Seq::<ContentBlock>::empty());
    assert(calls_in(one) =~= seq![(id, name, arguments)]);
    if b.len() == 0 {
        assert(a + b =~= a);
        assert(calls_in(a) + calls_in(b) =~= calls_in(a));
    } else {
        calls_of_halves_add_up(a, b.drop_last(), id, name, arguments);
        assert((a + b).drop_last() =~= a + b.drop_last());
        assert((a + b).last() == b.last());
        assert(calls_in(a + b) =~= calls_in(a) + calls_in(b));
    }
}

/// What a tool answered is what the log gives back for its call: the text of
/// the answer, marked as failed exactly where the answer is an error, in the
/// turn and step of the call.
pub proof fn logged_answer_is_read_back(
    log: Seq<session::SessionEntry>,
    row: SessionEvent,
    seq: u64,
    turn: u64,
    step: u64,
    call_id: String,
    answer: ToolAnswer,
)
    requires
        result_row(row, turn, step, call_id, answer),
    ensures
        ({
            let after = log.push(session::SessionEntry { seq, event: row });
            &&& session::latest_result(after, call_id@).0 == session::result_text(answer.content@)
            &&& session::latest_result(after, call_id@).1 == answer.is_error
            &&& row is ToolResult
            &&& row->ToolResult_turn == turn
            &&& row->ToolResult_step == step
            &&& row->ToolResult_presentation == answer.presentation
            &&& row->ToolResult_message.role == MessageRole::Tool
        }),
{
    let e = session::SessionEntry { seq, event: row };
    session::latest_result_counts(
        log.push(e),
        call_id@,
        log.len() as int,
        row->ToolResult_message,
        call_id,
        answer.content,
        Some(answer.is_error),
    );
}

/// The model's answer is logged as it came: all of its parts, from the model
/// that was asked, in its turn and step and with its figures. What observers
/// see of it has the same parts.
pub proof fn answer_is_logged_as_it_came(
    row: SessionEvent,
    seen: AgentEvent,
    turn: u64,
    step: u64,
    content: Vec<ContentBlock>,
    provider: Seq<char>,
    model: Seq<char>,
    interrupted: bool,
    usage: Option<TokenUsage>,
    i: int,
)
    requires
        answer_row(row, turn, step, content, provider, model, interrupted, usage),
        shows_answer(seen, content@, provider, model, usage),
        0 <= i < content@.len(),
    ensures
        row is AssistantMessage,
        row->AssistantMessage_turn == turn,
        row->AssistantMessage_step == step,
        row->AssistantMessage_message.content@ == content@,
        row->AssistantMessage_message.role == MessageRole::Assistant,
        row->AssistantMessage_message.source matches MessageSource::Model { provider: p, model: m }
            && p@ == provider && m@ == model,
        row->AssistantMessage_usage == usage,
        row->interrupted == interrupted,
        seen is AssistantMessage,
        seen->AssistantMessage_usage == usage,
        seen->AssistantMessage_message.content@.len() == content@.len(),
        content@[i] matches ContentBlock::Text { text } ==> seen->AssistantMessage_message.content@[i]
            == (ContentBlock::Text { text }),
        content@[i] matches ContentBlock::ToolCall { id, name, arguments }
            ==> seen->AssistantMessage_message.content@[i] == (ContentBlock::ToolCall {
            id,
            name,
            arguments,
        }),
{
}

/// A call of a tool that does not exist is answered as a failure that names the
/// tool, and does not end the turn.
pub proof fn missing_tool_is_named(a: ToolAnswer, name: Seq<char>)
    requires
        is_missing_tool(a, name),
    ensures
        a.is_error,
        !a.concludes_turn,
        text::holds_text(session::result_text(a.content@), name),
{
    let s = a.content@[0]->Text_0@;
    assert(a.content@ =~= Seq::<ResultPart>::empty().push(a.content@[0]));
    session::text_of_a_result_goes_on(Seq::empty(), a.content@[0]);
    assert(Seq::<char>::empty() + s =~= s);
    reveal_strlit("no tool \"");
    assert(s.subrange(9, 9int + name.len()) =~= name);
    assert(text::stands_at(s, name, 9));
}

/// The prompt that a step is opened with is the one that the log then holds,
/// and it is not told again while it stays the same.
pub proof fn prompt_is_told_once(
    log: Seq<session::SessionEntry>,
    row: SessionEvent,
    seq: u64,
    turn: u64,
    step: u64,
    prompt: Seq<char>,
    replace: Option<u64>,
    rows: Seq<SessionEvent>,
    messages: Seq<Message>,
    selected: (Seq<char>, Seq<char>),
)
    requires
        system_row(row, turn, step, prompt, replace),
        opens_step(
            rows,
            turn,
            step,
            prompt,
            session::system_head(log.push(session::SessionEntry { seq, event: row })),
            messages,
            None,
            selected,
        ),
    ensures
        session::system_head(log.push(session::SessionEntry { seq, event: row })) == Some(
            (seq, prompt),
        ),
        rows.len() == 1 + messages.len(),
        forall|i: int| 0 <= i < rows.len() ==> !((#[trigger] rows[i]) is SystemMessage),
{
    let e = session::SessionEntry { seq, event: row };
    let m = row->SystemMessage_message;
    assert(log.push(e).drop_last() =~= log);
    if prompt.len() > 0 {
        let t = m.content@[0]->Text_text;
        assert(m.content@ =~= seq![ContentBlock::Text { text: t }]);
        session::last_prompt_is_the_head(log, e, t);
    } else {
        assert(prompt =~= Seq::<char>::empty());
    }
    assert forall|i: int| 0 <= i < rows.len() implies !((#[trigger] rows[i]) is SystemMessage) by {
        if i > 0 {
            assert(rows[1 + (i - 1)] == SessionEvent::UserMessage(messages[i - 1]));
        }
    }
}

/// A step that is opened logs its start, a prompt that is new, and every
/// message that came in, in order.
pub proof fn opened_step_logs_its_input(
    rows: Seq<SessionEvent>,
    turn: u64,
    step: u64,
    prompt: Seq<char>,
    head: Option<(u64, Seq<char>)>,
    messages: Seq<Message>,
    previous: Option<(Seq<char>, Seq<char>)>,
    selected: (Seq<char>, Seq<char>),
    i: int,
)
    requires
        opens_step(rows, turn, step, prompt, head, messages, previous, selected),
    ensures
        rows.len() > messages.len(),
        rows[0] == (SessionEvent::StepStart { turn, step, time_ms: None }),
        head is None || (head->0).1 != prompt ==> rows[1] is SystemMessage,
        head is Some && (head->0).1 == prompt && messages.len() > 0 ==> rows[1]
            == SessionEvent::UserMessage(messages[0]),
        0 <= i < messages.len() ==> rows.contains(SessionEvent::UserMessage(messages[i])),
        previous is None || previous == Some(selected) || messages.len() == 0 ==> rows.len()
            <= messages.len() + 2,
        messages.len() > 0 && previous is Some && previous != Some(selected) ==> rows.last()
            is UserMessage && is_switch_notice(
            rows.last()->UserMessage_0,
            previous->0,
            selected,
        ),
{
    let base = if head is Some && (head->0).1 == prompt {
        1int
    } else {
        2int
    };
    if 0 <= i < messages.len() {
        assert(rows[base + i] == SessionEvent::UserMessage(messages[i]));
    }
    if messages.len() > 0 {
        assert(rows[base + 0] == SessionEvent::UserMessage(messages[0]));
    }
}

/// The notice of a switch names both models: the one that spoke until now
/// before the one that goes on.
pub proof fn switch_notice_names_both_models(
    m: Message,
    previous: (Seq<char>, Seq<char>),
    selected: (Seq<char>, Seq<char>),
)
    requires
        is_switch_notice(m, previous, selected),
    ensures
        ({
            let said = session::plain_text(m.content@);
            &&& exists|i: int, j: int|
                i + previous.1.len() <= j && #[trigger] text::stands_at(said, previous.1, i)
                    && #[trigger] text::stands_at(said, selected.1, j)
            &&& text::finishes(route_name(previous.0, previous.1, selected.0), previous.1)
            &&& m.role == MessageRole::User
            &&& m.source is Plugin
        }),
{
    let from = route_name(previous.0, previous.1, selected.0);
    let to = route_name(selected.0, selected.1, previous.0);
    let a = "[model changed: assistant turns above this point were generated by "@;
    let b = "; the session continues with "@;
    let said = a + from + b + to + "]"@;
    reveal_strlit("]");
    lemma_route_ends(previous.0, previous.1, selected.0);
    lemma_route_ends(selected.0, selected.1, previous.0);
    let first = m.content@[0];
    assert(m.content@ =~= Seq::<ContentBlock>::empty().push(first));
    session::text_of_a_message_goes_on(Seq::empty(), first);
    assert(session::plain_text(m.content@) =~= said);
    let i = a.len() + from.len() - previous.1.len();
    let j = a.len() + from.len() + b.len() + to.len() - selected.1.len();
    assert(said.subrange(i, i + previous.1.len()) =~= from.skip(from.len() - previous.1.len()));
    assert(said.subrange(j, j + selected.1.len()) =~= to.skip(to.len() - selected.1.len()));
    assert(text::stands_at(said, previous.1, i));
    assert(text::stands_at(said, selected.1, j));
}

proof fn lemma_route_ends(provider: Seq<char>, model: Seq<char>, other: Seq<char>)
    ensures
        text::finishes(route_name(provider, model, other), model),
{
    let r = route_name(provider, model, other);
    assert(r.skip(r.len() - model.len()) =~= model);
}

/// The name of a route ends with its model, and starts with its provider where
/// that differs from the other's.
pub proof fn routes_name_what_differs(provider: Seq<char>, model: Seq<char>, other: Seq<char>)
    ensures
        text::finishes(route_name(provider, model, other), model),
        provider != other ==> text::begins(route_name(provider, model, other), provider)
            && route_name(provider, model, other).len() == provider.len() + 1 + model.len(),
        provider == other ==> route_name(provider, model, other).len() == model.len(),
{
    lemma_route_ends(provider, model, other);
    reveal_strlit("/");
    if provider != other {
        assert(route_name(provider, model, other).take(provider.len() as int) =~= provider);
    }
}

/// A summary line keeps a short text whole and cuts a long one to its start.
pub proof fn summary_line_keeps_the_start(s: Seq<char>)
    ensures
        bounded_line(s).len() <= 120,
        text::trimmed(s).len() <= 120 ==> bounded_line(s) == text::trimmed(s),
        text::trimmed(s).len() > 120 ==> bounded_line(s).len() == 120 && bounded_line(s).take(119)
            == text::trimmed(s).take(119),
{
    reveal_strlit("…");
    let t = text::trimmed(s);
    if t.len() > 120 {
        assert(bounded_line(s).take(119) =~= t.take(119));
    }
}

/// The assembled prompt holds the base, the sections and the folder of the
/// session, as far as they are given.
pub proof fn prompt_holds_what_it_is_made_of(
    base: Seq<char>,
    sections: Seq<char>,
    workdir: Option<Seq<char>>,
)
    ensures
        ({
            let prompt = text::joined(prompt_parts(base, sections, workdir), "\n\n"@);
            &&& base.len() > 0 ==> text::holds_text(prompt, base)
            &&& sections.len() > 0 ==> text::holds_text(prompt, sections)
            &&& workdir matches Some(w) ==> text::holds_text(prompt, w)
            &&& base.len() == 0 && sections.len() == 0 && workdir is None ==> prompt.len() == 0
            &&& base.len() > 0 && sections.len() == 0 && workdir is None ==> prompt == base
        }),
{
    let parts = prompt_parts(base, sections, workdir);
    let prompt = text::joined(parts, "\n\n"@);
    if base.len() > 0 {
        assert(parts[0] == base);
        text::parts_stand_in_the_whole(parts, "\n\n"@, 0);
    }
    if sections.len() > 0 {
        let k = if base.len() > 0 {
            1int
        } else {
            0int
        };
        assert(parts[k] == sections);
        text::parts_stand_in_the_whole(parts, "\n\n"@, k);
    }
    if let Some(w) = workdir {
        let k = parts.len() - 1;
        let note = workspace_note(w);
        assert(parts[k] == note);
        text::parts_stand_in_the_whole(parts, "\n\n"@, k);
        let i = choose|i: int| text::stands_at(prompt, note, i);
        let lead =
            "Current DSH file policy: workspace-write. Any available operation enforced by the DSH file sandbox may modify files under the session workspace: \""@;
        let n = lead.len() as int;
        assert(note.subrange(n, n + w.len()) =~= w);
        assert(prompt.subrange(i + n, i + n + w.len()) =~= prompt.subrange(
            i,
            i + note.len(),
        ).subrange(n, n + w.len()));
        assert(text::stands_at(prompt, w, i + n));
    }
}

/// A turn ends for the right reason: called off it is aborted, rejected input
/// blocks it, a turn without input completes, a step that calls tools goes on,
/// and a step that concludes gives the turn its reason.
pub proof fn turn_ends_for_the_right_reason(t: Turn, reason: TurnEndReason, waiting: bool)
    ensures
        after_head(t, true).ends == Some(TurnEndReason::Aborted),
        after_head(t, true).phase == TurnPhase::Over,
        after_head(t, false).phase == TurnPhase::Claimed,
        after_head(t, false).ends == t.ends,
        after_decision(t, true, waiting).ends == Some(TurnEndReason::Blocked),
        after_decision(t, true, waiting).phase == TurnPhase::Over,
        after_decision(t, false, false).phase == TurnPhase::Running,
        after_decision(t, false, false).ends == t.ends,
        t.step == 1 ==> after_decision(t, false, true).phase == TurnPhase::Over && after_decision(
            t,
            false,
            true,
        ).ends == Some(TurnEndReason::Completed),
        t.step > 1 && t.ends is None ==> after_decision(t, false, true).phase == TurnPhase::Running,
        t.step > 1 && t.ends is Some ==> after_decision(t, false, true).phase == TurnPhase::Over
            && after_decision(t, false, true).ends == t.ends,
        t.ends is None ==> after_step(t, StepEnd::NeedsAnotherStep, waiting).phase
            == TurnPhase::Head && after_step(t, StepEnd::NeedsAnotherStep, waiting).ends is None,
        after_step(t, StepEnd::NeedsAnotherStep, waiting).target == InboxTarget::NextStep || t.ends
            is Some,
        t.ends is None ==> after_step(t, StepEnd::Concluded(reason), false).phase == TurnPhase::Over
            && after_step(t, StepEnd::Concluded(reason), false).ends == Some(reason),
        t.ends is None ==> after_step(t, StepEnd::Concluded(reason), true).ends == Some(reason)
            && after_step(t, StepEnd::Concluded(reason), true).phase == TurnPhase::Head,
{
}

/// Steps are numbered from 1 on: each that is begun gets the next number, and
/// the number stays while the step is decided on and run.
pub proof fn steps_count_up(t: Turn, end: StepEnd, rejected: bool, none: bool, waiting: bool)
    requires
        t.step < u64::MAX,
    ensures
        fresh_turn(t.turn).step == 0,
        fresh_turn(t.turn).turn == t.turn,
        fresh_turn(t.turn).phase == TurnPhase::Head,
        fresh_turn(t.turn).ends is None,
        fresh_turn(t.turn).target == InboxTarget::NextTurn,
        after_head(t, false).step == t.step + 1,
        after_decision(t, rejected, none).step == t.step,
        after_step(t, end, waiting).step == t.step,
        after_head(t, false).turn == t.turn,
        after_decision(t, rejected, none).turn == t.turn,
        after_step(t, end, waiting).turn == t.turn,
{
}

/// A summary stands for the first messages and for no others: it lists each of
/// them, ends with the last of them and says what was summed up.
pub proof fn summary_stands_for_the_first_messages(
    row: SessionEvent,
    seqs: Seq<u64>,
    boundary: int,
    summary: String,
    nanos: u128,
    tokens: u64,
    provider: Seq<char>,
    model: Seq<char>,
    i: int,
)
    requires
        is_checkpoint(row, seqs, boundary, summary, nanos, tokens, provider, model),
        0 < boundary <= seqs.len(),
        0 <= i < boundary,
    ensures
        row is Compaction,
        (row->Compaction_0).shadowed_seqs@.len() == boundary,
        (row->Compaction_0).shadowed_seqs@[i] == seqs[i],
        (row->Compaction_0).before_seq == (row->Compaction_0).shadowed_seqs@.last(),
        (row->Compaction_0).first_seq == (row->Compaction_0).shadowed_seqs@[0],
        (row->Compaction_0).summary == summary,
        (row->Compaction_0).tokens == tokens,
        (row->Compaction_0).provider@ == provider,
        (row->Compaction_0).model@ == model,
{
}

/// A summary never starts behind a call whose answer it leaves out.
pub proof fn summary_keeps_pairs_together(answers: Seq<bool>, at: int)
    requires
        parts_no_pair(answers, at),
        0 < at < answers.len(),
    ensures
        !answers[at],
{
}

/// The tools and the prompt of a request are those of the assembly; where there
/// are none, none are sent.
pub proof fn request_tells_the_tools(
    config: CallConfigView,
    tools: Seq<ToolSchemaView>,
    system: Seq<char>,
)
    ensures
        header_of(config, tools).config == config,
        header_of(config, tools).system is None,
        tools.len() > 0 ==> header_of(config, tools).tools == Some(tools),
        tools.len() == 0 ==> header_of(config, tools).tools is None,
        system.len() > 0 ==> system_or_none(system) == Some(system),
        system.len() == 0 ==> system_or_none(system) is None,
{
}

/// Hexadecimal numbers of one width are as long as it says and differ where
/// the numbers differ within it.
pub proof fn hex_tells_numbers_apart(a: nat, b: nat, width: nat)
    requires
        hex(a, width) == hex(b, width),
    ensures
        hex(a, width).len() == width,
        a % vstd::arithmetic::power::pow(16, width) as nat == b % vstd::arithmetic::power::pow(
            16,
            width,
        ) as nat,
    decreases width,
{
    vstd::arithmetic::power::lemma_pow_positive(16, width);
    if width == 0 {
        vstd::arithmetic::power::lemma_pow0(16);
    } else {
        let w = (width - 1) as nat;
        let x = hex(a / 16, w);
        let y = hex(b / 16, w);
        let p = vstd::arithmetic::power::pow(16, w);
        vstd::arithmetic::power::lemma_pow_positive(16, w);
        assert(hex(a, width).drop_last() =~= x);
        assert(hex(b, width).drop_last() =~= y);
        assert(hex(a, width).last() == hex_digit((a % 16) as int));
        assert(hex(b, width).last() == hex_digit((b % 16) as int));
        hex_tells_numbers_apart(a / 16, b / 16, w);
        assert(a % 16 == b % 16);
        vstd::arithmetic::power::lemma_pow_adds(16, 1, w);
        vstd::arithmetic::power::lemma_pow1(16);
        assert(vstd::arithmetic::power::pow(16, width) == 16 * p);
        vstd::arithmetic::div_mod::lemma_mod_breakdown(a as int, 16, p);
        vstd::arithmetic::div_mod::lemma_mod_breakdown(b as int, 16, p);
    }
}

} // verus!
