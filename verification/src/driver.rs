//! The driver of a session: it takes input, runs turns of steps, and writes
//! everything that happens to the log. Asking the model, running tools and
//! storing the log are left to the program around it.

use crate::agent::{
    self, AgentEvent, AgentOptions, AgentStatus, Call, FinishReason, GenerateOptions, Inbox,
    InboxTarget, PreStepDecision, PromptAssembly, StepEnd, StepOutcome, ToolAnswer, Turn, TurnPhase,
};
use crate::boundary::{
    self, StepBoundary, StepBoundaryKind, TurnBoundaryProjection,
};
use crate::session::{
    self, CallConfig, CallConfigView, ContentBlock, Failure, HeaderView, Message, RequestHeader,
    Session, SessionEntry, SessionEvent, StreamChunk, TokenUsage, TurnEndReason,
};
use vstd::prelude::*;

verus! {

// ---------------------------------------------------------------------------
// logs
// ---------------------------------------------------------------------------

/// Whether an event starts or ends a turn or a step.
pub open spec fn is_bracket(e: SessionEvent) -> bool {
    e is TurnStart || e is TurnEnd || e is StepStart || e is StepEnd
}

/// What was appended to a log behind its first `n` entries.
pub open spec fn events_since(entries: Seq<SessionEntry>, n: int) -> Seq<SessionEvent> {
    Seq::new((entries.len() - n) as nat, |i: int| entries[n + i].event)
}

/// Whether `after` is `before` with `rows` appended.
pub open spec fn logs(
    before: Seq<SessionEntry>,
    rows: Seq<SessionEvent>,
    after: Seq<SessionEntry>,
) -> bool {
    &&& before.len() <= after.len()
    &&& after.take(before.len() as int) == before
    &&& events_since(after, before.len() as int) == rows
}

/// The header that the last request was made with.
pub open spec fn last_header(entries: Seq<SessionEntry>) -> Option<RequestHeader>
    decreases entries.len(),
{
    if entries.len() == 0 {
        None
    } else {
        match entries.last().event {
            SessionEvent::RequestHeader { header, .. } => Some(header),
            _ => last_header(entries.drop_last()),
        }
    }
}

/// Whether a log was continued by a header, where it differs from the last one
/// or is the first.
pub open spec fn notes_header(
    before: Seq<SessionEntry>,
    after: Seq<SessionEntry>,
    header: HeaderView,
) -> bool {
    let rows = events_since(after, before.len() as int);
    match last_header(before) {
        Some(h) if h.deep_view() == header => after == before,
        last => {
            &&& logs(before, rows, after)
            &&& rows.len() == 1
            &&& (rows[0] matches SessionEvent::RequestHeader { header: h, reason }
                && h.deep_view() == header && reason == (if last is None {
                session::HeaderReason::Initial
            } else {
                session::HeaderReason::Change
            }))
        },
    }
}

/// A header is noted once: where nothing has changed, a second request notes
/// none.
pub proof fn same_header_is_noted_once(
    before: Seq<SessionEntry>,
    after: Seq<SessionEntry>,
    later: Seq<SessionEntry>,
    header: HeaderView,
)
    requires
        notes_header(before, after, header),
        notes_header(after, later, header),
    ensures
        later == after,
{
    if after != before {
        let n = before.len() as int;
        assert(events_since(after, n).len() == 1);
        assert(after.len() == n + 1);
        assert(events_since(after, n)[0] == after[n].event);
        assert(after.last() == after[n]);
    }
}

/// The place of the header that the last request was made with.
fn find_header(entries: &Vec<SessionEntry>) -> (r: Option<usize>)
    ensures
        match r {
            Some(i) => i < entries@.len() && (
            entries@[i as int].event matches SessionEvent::RequestHeader { header, .. }
                && last_header(entries@) == Some(header)),
            None => last_header(entries@) is None,
        },
{
    let mut n: usize = entries.len();
    assert(entries@.take(n as int) =~= entries@);
    while n > 0
        invariant
            n <= entries@.len(),
            last_header(entries@) == last_header(entries@.take(n as int)),
        decreases n,
    {
        let ghost part = entries@.take(n as int);
        assert(part.drop_last() =~= entries@.take(n - 1));
        assert(part.last() == entries@[n - 1]);
        n = n - 1;
        match &entries[n].event {
            SessionEvent::RequestHeader { header, reason } => {
                return Some(n);
            },
            _ => {},
        }
    }
    None
}

/// Whether a log stands inside a step of its open turn.
pub open spec fn step_open(b: TurnBoundaryProjection) -> bool {
    match (b.open_turn_start_seq, b.last_step_boundary) {
        (Some(from), Some(s)) => s.kind == StepBoundaryKind::Start && s.seq > from,
        _ => false,
    }
}

/// Whether the brackets of a log lie within it.
pub open spec fn brackets_within(b: TurnBoundaryProjection, n: nat) -> bool {
    &&& (b.open_turn_start_seq matches Some(s) ==> s < n)
    &&& (b.last_step_boundary matches Some(s) ==> s.seq < n)
}

proof fn lemma_brackets_within(entries: Seq<SessionEntry>)
    requires
        forall|i: int| 0 <= i < entries.len() ==> (#[trigger] entries[i]).seq == i,
    ensures
        brackets_within(boundary::boundary_of(entries), entries.len()),
    decreases entries.len(),
{
    if entries.len() > 0 {
        let head = entries.drop_last();
        assert forall|i: int| 0 <= i < head.len() implies (#[trigger] head[i]).seq == i by {
            assert(head[i] == entries[i]);
        }
        lemma_brackets_within(head);
        assert(entries[entries.len() - 1].seq == entries.len() - 1);
    }
}

proof fn lemma_quiet(before: Seq<SessionEntry>, after: Seq<SessionEntry>)
    requires
        before.len() <= after.len(),
        after.take(before.len() as int) == before,
        forall|i: int|
            before.len() <= i < after.len() ==> !is_bracket((#[trigger] after[i]).event),
    ensures
        boundary::boundary_of(after) == boundary::boundary_of(before),
    decreases after.len(),
{
    if before.len() == after.len() {
        assert(after =~= before);
    } else {
        let head = after.drop_last();
        assert(head.take(before.len() as int) =~= before);
        assert forall|i: int| before.len() <= i < head.len() implies !is_bracket(
            (#[trigger] head[i]).event,
        ) by {
            assert(head[i] == after[i]);
        }
        lemma_quiet(before, head);
        assert(!is_bracket(after[after.len() - 1].event));
    }
}

proof fn lemma_head_stays(before: Seq<SessionEntry>, after: Seq<SessionEntry>)
    requires
        before.len() <= after.len(),
        after.take(before.len() as int) == before,
        forall|i: int|
            before.len() <= i < after.len() ==> !((#[trigger] after[i]).event is SystemMessage),
    ensures
        session::system_head(after) == session::system_head(before),
    decreases after.len(),
{
    if before.len() == after.len() {
        assert(after =~= before);
    } else {
        let head = after.drop_last();
        assert(head.take(before.len() as int) =~= before);
        assert forall|i: int| before.len() <= i < head.len() implies !((
        #[trigger] head[i]).event is SystemMessage) by {
            assert(head[i] == after[i]);
        }
        lemma_head_stays(before, head);
        assert(!(after[after.len() - 1].event is SystemMessage));
    }
}

fn append_all(log: &mut Session, rows: Vec<SessionEvent>)
    requires
        old(log).dense(),
        old(log).entries@.len() + rows@.len() <= u64::MAX,
    ensures
        final(log).dense(),
        final(log).id == old(log).id,
        logs(old(log).entries@, rows@, final(log).entries@),
{
    let ghost before = log.entries@;
    let ghost all = rows@;
    for row in it: rows
        invariant
            it.seq() == all,
            log.dense(),
            log.id == old(log).id,
            log.entries@.len() == before.len() + it.index(),
            before.len() + all.len() <= u64::MAX,
            log.entries@.take(before.len() as int) == before,
            forall|i: int|
                0 <= i < it.index() ==> (#[trigger] log.entries@[before.len() + i]).event == all[i],
    {
        let ghost so_far = log.entries@;
        log.append(row);
        assert(log.entries@.take(before.len() as int) =~= so_far.take(before.len() as int));
    }
    assert(events_since(log.entries@, before.len() as int) =~= all);
}

// ---------------------------------------------------------------------------
// the driver
// ---------------------------------------------------------------------------

/// A session under way: its log, the input that waits, and the turn that runs.
pub struct ReactLoopAgent {
    pub options: AgentOptions,
    pub session: Session,
    pub inbox: Inbox,
    pub status: AgentStatus,
    /// Whether the work under way was called off.
    pub aborted: bool,
    /// The system prompt that the log holds last, with its place.
    pub system_head: Option<(u64, String)>,
    /// The turn that runs.
    pub turn: Option<Turn>,
}

/// Whether a turn stands where the log says that it does: the log has started
/// it and not ended it, and a step is open exactly while one runs.
pub open spec fn stands_in(t: Turn, entries: Seq<SessionEntry>) -> bool {
    let b = boundary::boundary_of(entries);
    &&& b.open_turn_start_seq is Some
    &&& b.last_turn == t.turn
    &&& step_open(b) == (t.phase == TurnPhase::Running)
}

impl ReactLoopAgent {
    /// Whether the log is numbered without gaps, holds the system prompt that
    /// is tracked, and agrees with the turn that runs.
    pub open spec fn well_formed(self) -> bool {
        &&& self.session.dense()
        &&& session::head_view(self.system_head) == session::system_head(self.session.entries@)
        &&& (self.turn matches Some(t) ==> stands_in(t, self.session.entries@))
    }

    /// Whether the log takes `n` more entries.
    pub open spec fn has_room(self, n: nat) -> bool {
        self.session.entries@.len() + n <= u64::MAX
    }

    /// Whether a turn runs and stands in `phase`.
    pub open spec fn stands(self, phase: TurnPhase) -> bool {
        self.turn matches Some(t) && t.phase == phase
    }

    /// A driver of a session with an empty log.
    pub fn new(id: String, options: AgentOptions) -> (r: Self)
        ensures
            r.well_formed(),
            r.options == options,
            r.session.id == id,
            r.session.entries@.len() == 0,
            r.inbox.next_turn@.len() == 0,
            r.inbox.next_step@.len() == 0,
            r.status == AgentStatus::Idle,
            !r.aborted,
            r.turn is None,
    {
        ReactLoopAgent {
            options,
            session: Session::new(id),
            inbox: Inbox::new(),
            status: AgentStatus::Idle,
            aborted: false,
            system_head: None,
            turn: None,
        }
    }

    /// Moves to another session. What waited for the old one is dropped.
    pub fn set_session(&mut self, session: Session)
        requires
            session.dense(),
        ensures
            old(self).turn is None ==> final(self).well_formed(),
            session::head_view(final(self).system_head) == session::system_head(session.entries@),
            final(self).inbox.next_turn@.len() == 0,
            final(self).inbox.next_step@.len() == 0,
            *final(self) == (ReactLoopAgent {
                session,
                system_head: final(self).system_head,
                inbox: final(self).inbox,
                ..*old(self)
            }),
    {
        self.system_head = session::find_system_head(&session);
        self.session = session;
        self.inbox = Inbox::new();
    }

    /// Writes an event to the log; gives its place.
    pub fn append_session_event(&mut self, event: SessionEvent) -> (seq: u64)
        requires
            old(self).well_formed(),
            old(self).session.entries@.len() < u64::MAX,
        ensures
            seq == old(self).session.entries@.len(),
            final(self).session.entries@ == old(self).session.entries@.push(
                SessionEntry { seq, event },
            ),
            final(self).session.dense(),
            !is_bracket(event) && !(event is SystemMessage) ==> final(self).well_formed(),
            *final(self) == (ReactLoopAgent { session: final(self).session, ..*old(self) }),
            final(self).session.id == old(self).session.id,
    {
        let ghost before = self.session.entries@;
        let seq: u64 = self.session.append(event);
        proof {
            let after = self.session.entries@;
            assert(after.take(before.len() as int) =~= before);
            if !is_bracket(event) {
                lemma_quiet(before, after);
            }
            if !(event is SystemMessage) {
                lemma_head_stays(before, after);
            }
        }
        seq
    }

    /// Queues a message and wakes the driver.
    pub fn send(&mut self, message: Message, target: InboxTarget)
        ensures
            final(self).inbox.next_turn@ == (if target == InboxTarget::NextTurn {
                old(self).inbox.next_turn@.push(message)
            } else {
                old(self).inbox.next_turn@
            }),
            final(self).inbox.next_step@ == (if target == InboxTarget::NextStep {
                old(self).inbox.next_step@.push(message)
            } else {
                old(self).inbox.next_step@
            }),
            *final(self) == (ReactLoopAgent { inbox: final(self).inbox, ..*old(self) }),
    {
        self.inbox.append(target, message);
    }

    /// Queues a text as the next turn.
    pub fn followup(&mut self, text: String)
        ensures
            final(self).inbox.next_turn@.len() == old(self).inbox.next_turn@.len() + 1,
            final(self).inbox.next_turn@.drop_last() == old(self).inbox.next_turn@,
            says(final(self).inbox.next_turn@.last(), text),
            final(self).inbox.next_step@ == old(self).inbox.next_step@,
            *final(self) == (ReactLoopAgent { inbox: final(self).inbox, ..*old(self) }),
    {
        self.send(agent::user_message(text), InboxTarget::NextTurn);
        assert(self.inbox.next_turn@.drop_last() =~= old(self).inbox.next_turn@);
    }

    /// Queues a text for the next step.
    pub fn steer(&mut self, text: String)
        ensures
            final(self).inbox.next_step@.len() == old(self).inbox.next_step@.len() + 1,
            final(self).inbox.next_step@.drop_last() == old(self).inbox.next_step@,
            says(final(self).inbox.next_step@.last(), text),
            final(self).inbox.next_turn@ == old(self).inbox.next_turn@,
            *final(self) == (ReactLoopAgent { inbox: final(self).inbox, ..*old(self) }),
    {
        self.send(agent::user_message(text), InboxTarget::NextStep);
        assert(self.inbox.next_step@.drop_last() =~= old(self).inbox.next_step@);
    }

    /// Queues context for the next step without waking the driver.
    pub fn inject(&mut self, message: Message)
        ensures
            final(self).inbox.next_step@ == old(self).inbox.next_step@.push(message),
            final(self).inbox.next_turn@ == old(self).inbox.next_turn@,
            *final(self) == (ReactLoopAgent { inbox: final(self).inbox, ..*old(self) }),
    {
        self.inbox.append(InboxTarget::NextStep, message);
    }

    /// Calls off the work under way and drops what waits, which is given back:
    /// first what waited for a turn, then what waited for a step.
    pub fn cancel(&mut self) -> (r: Vec<Message>)
        ensures
            r@ == old(self).inbox.next_turn@ + old(self).inbox.next_step@,
            final(self).inbox.next_turn@.len() == 0,
            final(self).inbox.next_step@.len() == 0,
            *final(self) == (ReactLoopAgent {
                inbox: final(self).inbox,
                aborted: true,
                ..*old(self)
            }),
    {
        let dropped: Vec<Message> = self.inbox.discard();
        self.aborted = true;
        dropped
    }

    /// Wakes the driver: earlier calls to stop no longer count. Says whether
    /// its status changed.
    pub fn wake(&mut self) -> (changed: bool)
        ensures
            changed == (old(self).status != AgentStatus::Running),
            *final(self) == (ReactLoopAgent {
                aborted: false,
                status: AgentStatus::Running,
                ..*old(self)
            }),
    {
        self.aborted = false;
        agent::set_status(&mut self.status, AgentStatus::Running)
    }

    /// The session under way.
    pub fn session(&self) -> (r: &Session)
        ensures
            *r == self.session,
    {
        &self.session
    }

    /// Whether the agent works.
    pub fn status(&self) -> (r: AgentStatus)
        ensures
            r == self.status,
    {
        self.status
    }

    /// Whether another turn is to run: input waits, and the work was not called
    /// off.
    pub fn has_work(&self) -> (r: bool)
        ensures
            r == ((self.inbox.next_turn@.len() > 0 || self.inbox.next_step@.len() > 0)
                && !self.aborted),
    {
        self.inbox.has_pending() && !self.aborted
    }

    /// Rests until it is woken. Says whether its status changed.
    pub fn rest(&mut self) -> (changed: bool)
        ensures
            changed == (old(self).status != AgentStatus::Idle),
            *final(self) == (ReactLoopAgent { status: AgentStatus::Idle, ..*old(self) }),
    {
        agent::set_status(&mut self.status, AgentStatus::Idle)
    }

    /// Starts the turn that follows the latest one of the log.
    pub fn start_turn(&mut self) -> (r: AgentEvent)
        requires
            old(self).well_formed(),
            old(self).turn is None,
            old(self).has_room(1),
            boundary::boundary_of(old(self).session.entries@).last_turn < u64::MAX,
        ensures
            final(self).well_formed(),
            ({
                let turn = (boundary::boundary_of(old(self).session.entries@).last_turn + 1) as u64;
                &&& final(self).turn == Some(agent::fresh_turn(turn))
                &&& logs(
                    old(self).session.entries@,
                    seq![SessionEvent::TurnStart { turn }],
                    final(self).session.entries@,
                )
                &&& r == (AgentEvent::TurnStarted { turn })
            }),
            *final(self) == (ReactLoopAgent {
                session: final(self).session,
                turn: final(self).turn,
                ..*old(self)
            }),
            final(self).session.id == old(self).session.id,
    {
        let ghost before = self.session.entries@;
        let b: TurnBoundaryProjection = boundary::turn_boundary_projection_definition().fold(
            &self.session.entries,
        );
        proof {
            lemma_brackets_within(before);
        }
        let t: Turn = Turn::start(b.last_turn);
        let turn: u64 = t.turn;
        self.session.append(SessionEvent::TurnStart { turn });
        self.turn = Some(t);
        proof {
            let after = self.session.entries@;
            boundary::fold_goes_entry_by_entry(before, after.last());
            assert(after.take(before.len() as int) =~= before);
            assert(after.drop_last() =~= before);
            lemma_head_stays(before, after);
            assert(events_since(after, before.len() as int) =~= seq![
                SessionEvent::TurnStart { turn },
            ]);
        }
        AgentEvent::TurnStarted { turn }
    }

    /// Looks before a step whether the work was called off; says whether the
    /// step takes input, and which.
    pub fn head(&mut self) -> (r: Option<InboxTarget>)
        requires
            old(self).well_formed(),
            old(self).stands(TurnPhase::Head),
            old(self).turn->0.step < u64::MAX,
        ensures
            final(self).well_formed(),
            final(self).turn == Some(agent::after_head(old(self).turn->0, old(self).aborted)),
            r == (if old(self).aborted {
                None
            } else {
                Some(old(self).turn->0.target)
            }),
            *final(self) == (ReactLoopAgent { turn: final(self).turn, ..*old(self) }),
    {
        let mut r: Option<InboxTarget> = None;
        let mut turn: Option<Turn> = None;
        std::mem::swap(&mut turn, &mut self.turn);
        match turn {
            Some(mut t) => {
                if t.head(self.aborted) {
                    r = Some(t.target);
                }
                self.turn = Some(t);
            },
            None => {},
        }
        r
    }
}

/// Whether a message is a text of the user.
pub open spec fn says(m: Message, text: String) -> bool {
    m.role == session::MessageRole::User && m.content@ == seq![ContentBlock::Text { text }]
        && m.source == session::MessageSource::User
}

/// The route that the last request took.
pub open spec fn last_route(entries: Seq<SessionEntry>) -> Option<(Seq<char>, Seq<char>)> {
    match last_header(entries) {
        Some(h) => Some((h.config.provider@, h.config.model@)),
        None => None,
    }
}

/// Whether nothing but the log and the tracked prompt differs.
pub open spec fn wrote(a: ReactLoopAgent, b: ReactLoopAgent) -> bool {
    &&& b == ReactLoopAgent { session: b.session, system_head: b.system_head, turn: b.turn, ..a }
    &&& b.session.id == a.session.id
}

impl ReactLoopAgent {
    /// Writes an event that neither starts nor ends anything.
    fn log_quiet(&mut self, event: SessionEvent)
        requires
            old(self).well_formed(),
            old(self).has_room(1),
            !is_bracket(event),
            !(event is SystemMessage),
        ensures
            final(self).well_formed(),
            wrote(*old(self), *final(self)),
            final(self).turn == old(self).turn,
            final(self).system_head == old(self).system_head,
            logs(
                old(self).session.entries@,
                seq![event],
                final(self).session.entries@,
            ),
    {
        let ghost before = self.session.entries@;
        self.append_session_event(event);
        proof {
            let after = self.session.entries@;
            assert(after.take(before.len() as int) =~= before);
            assert(events_since(after, before.len() as int) =~= seq![event]);
        }
    }

    /// Takes the decision on a step's input. Where the step runs, its start is
    /// logged, then the system prompt where it is new, then the input, and then,
    /// where there was input, the announcement of another model where the route
    /// has changed. Says whether the step runs.
    pub fn enter_step(&mut self, decision: PreStepDecision, rendered: &str) -> (runs: bool)
        requires
            old(self).well_formed(),
            old(self).stands(TurnPhase::Claimed),
            decision matches PreStepDecision::Enter { messages } ==> old(self).has_room(
                messages@.len() + 3,
            ),
        ensures
            final(self).well_formed(),
            wrote(*old(self), *final(self)),
            final(self).turn == Some(
                match decision {
                    PreStepDecision::Reject => agent::after_decision(old(self).turn->0, true, false),
                    PreStepDecision::Enter { messages } => agent::after_decision(
                        old(self).turn->0,
                        false,
                        messages@.len() == 0,
                    ),
                },
            ),
            runs == final(self).stands(TurnPhase::Running),
            !runs ==> final(self).session == old(self).session,
            runs ==> ({
                let before = old(self).session.entries@;
                let rows = events_since(final(self).session.entries@, before.len() as int);
                &&& logs(before, rows, final(self).session.entries@)
                &&& agent::opens_step(
                    rows,
                    final(self).turn->0.turn,
                    final(self).turn->0.step,
                    rendered@,
                    session::head_view(old(self).system_head),
                    decision->messages@,
                    last_route(before),
                    (old(self).options.provider@, old(self).options.model@),
                )
            }),
    {
        let ghost before = self.session.entries@;
        let mut turn: Option<Turn> = None;
        std::mem::swap(&mut turn, &mut self.turn);
        let mut t: Turn = match turn {
            Some(t) => t,
            None => {
                return false;
            },
        };
        let entered: Option<Vec<Message>> = t.decide(decision);
        let (number, step) = (t.turn, t.step);
        self.turn = Some(t);
        let messages: Vec<Message> = match entered {
            Some(m) => m,
            None => {
                return false;
            },
        };
        let place: Option<usize> = find_header(&self.session.entries);
        let previous: Option<(&str, &str)> = match place {
            Some(i) => match &self.session.entries[i].event {
                SessionEvent::RequestHeader { header, .. } => Some(
                    (header.config.provider.as_str(), header.config.model.as_str()),
                ),
                _ => None,
            },
            None => None,
        };
        let next_seq: u64 = self.session.entries.len() as u64;
        let ghost head = session::head_view(self.system_head);
        let rows: Vec<SessionEvent> = agent::open_step(
            number,
            step,
            next_seq,
            rendered,
            &mut self.system_head,
            messages,
            previous,
            (self.options.provider.as_str(), self.options.model.as_str()),
        );
        let ghost events = rows@;
        append_all(&mut self.session, rows);
        proof {
            lemma_opened(
                before,
                self.session.entries@,
                events,
                number,
                step,
                rendered@,
                head,
                messages@,
                last_route(before),
                (self.options.provider@, self.options.model@),
            );
        }
        true
    }

    /// How the model would be asked: by the options.
    pub fn proposed_config(&self) -> (r: CallConfig)
        ensures
            r.deep_view() == (CallConfigView {
                provider: self.options.provider@,
                model: self.options.model@,
                max_tokens: self.options.max_tokens,
                temperature: None,
            }),
    {
        CallConfig {
            provider: self.options.provider.clone(),
            model: self.options.model.clone(),
            max_tokens: self.options.max_tokens,
            temperature: None,
        }
    }

    /// Makes a request: its header is noted where it differs from the last one.
    /// Gives what the model is asked with.
    pub fn build_request(&mut self, config: CallConfig, assembly: &PromptAssembly) -> (r:
        GenerateOptions)
        requires
            old(self).well_formed(),
            old(self).has_room(1),
        ensures
            final(self).well_formed(),
            wrote(*old(self), *final(self)),
            final(self).turn == old(self).turn,
            final(self).system_head == old(self).system_head,
            notes_header(
                old(self).session.entries@,
                final(self).session.entries@,
                agent::header_of(config.deep_view(), assembly.tools.deep_view()),
            ),
            r.provider@ == old(self).options.provider@,
            r.model@ == old(self).options.model@,
            r.system.deep_view() == agent::system_or_none(assembly.system@),
            r.tools.deep_view() == agent::tools_or_none(assembly.tools.deep_view()),
            r.max_tokens == config.max_tokens,
            r.temperature == config.temperature,
            r.session_id.deep_view() == Some(old(self).session.id@),
    {
        let (header, asked) = agent::request_parts(
            config,
            assembly,
            &self.options,
            self.session.id.as_str(),
        );
        let ghost view = header.deep_view();
        let ghost before = self.session.entries@;
        let place: Option<usize> = find_header(&self.session.entries);
        let current: Option<&RequestHeader> = match place {
            Some(i) => match &self.session.entries[i].event {
                SessionEvent::RequestHeader { header, .. } => Some(header),
                _ => None,
            },
            None => None,
        };
        let row: Option<SessionEvent> = agent::header_row(current, header);
        match row {
            Some(row) => {
                self.log_quiet(row);
                proof {
                    let after = self.session.entries@;
                    let rows = events_since(after, before.len() as int);
                    assert(rows =~= seq![row]);
                    assert(rows[0] == row);
                }
            },
            None => {},
        }
        asked
    }

    /// Takes a piece of an answer; gives what observers see of it.
    pub fn chunk(&mut self, chunk: StreamChunk) -> (r: Option<AgentEvent>)
        requires
            old(self).well_formed(),
            old(self).stands(TurnPhase::Running),
            old(self).has_room(1),
        ensures
            final(self).well_formed(),
            wrote(*old(self), *final(self)),
            final(self).turn == old(self).turn,
            logs(
                old(self).session.entries@,
                seq![
                    SessionEvent::AssistantChunk {
                        turn: old(self).turn->0.turn,
                        step: old(self).turn->0.step,
                        chunk,
                    },
                ],
                final(self).session.entries@,
            ),
            r == (match chunk {
                StreamChunk::TextDelta(s) => Some(AgentEvent::TextDelta { text: s }),
                StreamChunk::ReasoningDelta(s) => Some(AgentEvent::ReasoningDelta { text: s }),
                StreamChunk::Other => None,
            }),
    {
        let (turn, step) = self.place();
        let seen: Option<AgentEvent> = agent::chunk_event(&chunk);
        self.log_quiet(SessionEvent::AssistantChunk { turn, step, chunk });
        seen
    }

    /// The numbers of the turn and the step that run.
    fn place(&self) -> (r: (u64, u64))
        requires
            self.turn is Some,
        ensures
            r == (self.turn->0.turn, self.turn->0.step),
    {
        match &self.turn {
            Some(t) => (t.turn, t.step),
            None => (0, 0),
        }
    }

    /// Ends a step that was called off: what was said so far is logged, where
    /// anything was.
    pub fn interrupt(
        &mut self,
        content: Vec<ContentBlock>,
        provider: &str,
        model: &str,
        usage: Option<TokenUsage>,
    ) -> (r: StepEnd)
        requires
            old(self).well_formed(),
            old(self).stands(TurnPhase::Running),
            old(self).has_room(1),
        ensures
            final(self).well_formed(),
            wrote(*old(self), *final(self)),
            final(self).turn == old(self).turn,
            r == StepEnd::Concluded(TurnEndReason::Aborted),
            ({
                let before = old(self).session.entries@;
                let rows = events_since(final(self).session.entries@, before.len() as int);
                &&& logs(before, rows, final(self).session.entries@)
                &&& rows.len() == (if content@.len() == 0 {
                    0nat
                } else {
                    1nat
                })
                &&& content@.len() > 0 ==> agent::answer_row(
                    rows[0],
                    old(self).turn->0.turn,
                    old(self).turn->0.step,
                    content,
                    provider@,
                    model@,
                    true,
                    usage,
                )
            }),
    {
        let ghost before = self.session.entries@;
        let (turn, step) = self.place();
        match agent::interrupted_row(turn, step, content, provider, model, usage) {
            Some(row) => self.log_quiet(row),
            None => {
                assert(before.take(before.len() as int) =~= before);
                assert(events_since(before, before.len() as int) =~= Seq::<SessionEvent>::empty());
            },
        }
        StepEnd::Concluded(TurnEndReason::Aborted)
    }

    /// Runs a tool: what is logged and shown before it starts.
    pub fn call_tool(&mut self, call: &Call) -> (r: AgentEvent)
        requires
            old(self).well_formed(),
            old(self).stands(TurnPhase::Running),
            old(self).has_room(1),
        ensures
            final(self).well_formed(),
            wrote(*old(self), *final(self)),
            final(self).turn == old(self).turn,
            logs(
                old(self).session.entries@,
                seq![
                    SessionEvent::ToolCall {
                        turn: old(self).turn->0.turn,
                        step: old(self).turn->0.step,
                        call_id: call.0,
                        name: call.1,
                        arguments: call.2,
                    },
                ],
                final(self).session.entries@,
            ),
            r == (AgentEvent::ToolCall {
                tool_call_id: call.0,
                name: call.1,
                arguments: call.2,
            }),
    {
        let (turn, step) = self.place();
        let (row, seen) = agent::tool_call_rows(turn, step, call);
        self.log_quiet(row);
        seen
    }

    /// Takes what a tool gave back, which is nothing for a tool that does not
    /// exist. Gives what is shown, and whether the tool concluded the turn.
    pub fn tool_answered(&mut self, call: &Call, answer: Option<ToolAnswer>) -> (r: (
        AgentEvent,
        bool,
    ))
        requires
            old(self).well_formed(),
            old(self).stands(TurnPhase::Running),
            old(self).has_room(1),
        ensures
            final(self).well_formed(),
            wrote(*old(self), *final(self)),
            final(self).turn == old(self).turn,
            ({
                let before = old(self).session.entries@;
                let rows = events_since(final(self).session.entries@, before.len() as int);
                &&& logs(before, rows, final(self).session.entries@)
                &&& rows.len() == 1
                &&& exists|a: ToolAnswer|
                    (match answer {
                        Some(given) => a == given,
                        None => agent::is_missing_tool(a, call.1@),
                    }) && #[trigger] agent::result_row(
                        rows[0],
                        old(self).turn->0.turn,
                        old(self).turn->0.step,
                        call.0,
                        a,
                    ) && r == (
                        (AgentEvent::ToolResult { tool_call_id: call.0, is_error: a.is_error }),
                        a.concludes_turn,
                    )
            }),
    {
        let (turn, step) = self.place();
        let answer: ToolAnswer = agent::tool_answer(call.1.as_str(), answer);
        let concludes: bool = answer.concludes_turn;
        let ghost given = answer;
        let ghost before = self.session.entries@;
        let (row, seen) = agent::tool_result_rows(turn, step, &call.0, answer);
        self.log_quiet(row);
        proof {
            let rows = events_since(self.session.entries@, before.len() as int);
            assert(rows[0] == row);
            assert(agent::result_row(rows[0], turn, step, call.0, given));
        }
        (seen, concludes)
    }

    /// Ends a step; says whether the turn stops, which is when its observers
    /// are asked.
    pub fn finish_step(&mut self, end: StepEnd) -> (stops: bool)
        requires
            old(self).well_formed(),
            old(self).stands(TurnPhase::Running),
            old(self).has_room(1),
        ensures
            final(self).well_formed(),
            wrote(*old(self), *final(self)),
            final(self).system_head == old(self).system_head,
            final(self).turn == Some(
                agent::after_step(
                    old(self).turn->0,
                    end,
                    old(self).inbox.next_step@.len() > 0,
                ),
            ),
            stops == final(self).stands(TurnPhase::Over),
            logs(
                old(self).session.entries@,
                seq![
                    SessionEvent::StepEnd {
                        turn: old(self).turn->0.turn,
                        step: old(self).turn->0.step,
                    },
                ],
                final(self).session.entries@,
            ),
    {
        let ghost before = self.session.entries@;
        let (turn, step) = self.place();
        self.session.append(SessionEvent::StepEnd { turn, step });
        proof {
            let after = self.session.entries@;
            boundary::fold_goes_entry_by_entry(before, after.last());
            assert(after.drop_last() =~= before);
            assert(after.take(before.len() as int) =~= before);
            lemma_head_stays(before, after);
            assert(events_since(after, before.len() as int) =~= seq![
                SessionEvent::StepEnd { turn, step },
            ]);
        }
        let waiting: bool = self.inbox.has_pending_next_step();
        let mut under_way: Option<Turn> = None;
        std::mem::swap(&mut under_way, &mut self.turn);
        match under_way {
            Some(mut t) => {
                let stops: bool = t.finish_step(end, waiting);
                self.turn = Some(t);
                stops
            },
            None => false,
        }
    }

    /// Ends the turn.
    pub fn end_turn(&mut self) -> (r: AgentEvent)
        requires
            old(self).well_formed(),
            old(self).stands(TurnPhase::Over),
            old(self).has_room(1),
        ensures
            final(self).well_formed(),
            wrote(*old(self), *final(self)),
            final(self).system_head == old(self).system_head,
            final(self).turn is None,
            boundary::boundary_of(final(self).session.entries@).open_turn_start_seq is None,
            ({
                let t = old(self).turn->0;
                let reason = match t.ends {
                    Some(reason) => reason,
                    None => TurnEndReason::Completed,
                };
                &&& r == (AgentEvent::TurnEnded { turn: t.turn, reason })
                &&& logs(
                    old(self).session.entries@,
                    seq![SessionEvent::TurnEnd { turn: t.turn, reason }],
                    final(self).session.entries@,
                )
            }),
    {
        let ghost before = self.session.entries@;
        let (turn, step) = self.place();
        let mut under_way: Option<Turn> = None;
        std::mem::swap(&mut under_way, &mut self.turn);
        let reason: TurnEndReason = match under_way {
            Some(t) => t.reason(),
            None => TurnEndReason::Completed,
        };
        let shown: TurnEndReason = session::copy_reason(&reason);
        self.session.append(SessionEvent::TurnEnd { turn, reason });
        proof {
            let after = self.session.entries@;
            boundary::fold_goes_entry_by_entry(before, after.last());
            assert(after.drop_last() =~= before);
            assert(after.take(before.len() as int) =~= before);
            lemma_head_stays(before, after);
            assert(events_since(after, before.len() as int) =~= seq![
                SessionEvent::TurnEnd { turn, reason: shown },
            ]);
        }
        AgentEvent::TurnEnded { turn, reason: shown }
    }
}

proof fn lemma_opened(
    before: Seq<SessionEntry>,
    after: Seq<SessionEntry>,
    rows: Seq<SessionEvent>,
    turn: u64,
    step: u64,
    prompt: Seq<char>,
    head: Option<(u64, Seq<char>)>,
    messages: Seq<Message>,
    previous: Option<(Seq<char>, Seq<char>)>,
    selected: (Seq<char>, Seq<char>),
)
    requires
        logs(before, rows, after),
        agent::opens_step(rows, turn, step, prompt, head, messages, previous, selected),
        forall|i: int| 0 <= i < after.len() ==> (#[trigger] after[i]).seq == i,
        after.len() <= u64::MAX,
        head == session::system_head(before),
    ensures
        ({
            let b = boundary::boundary_of(before);
            boundary::boundary_of(after) == TurnBoundaryProjection {
                last_step_start_seq: Some(before.len() as u64),
                last_step_boundary: Some(
                    StepBoundary { kind: StepBoundaryKind::Start, seq: before.len() as u64 },
                ),
                ..b
            }
        }),
        brackets_within(boundary::boundary_of(before), before.len()),
        session::system_head(after) == (match head {
            Some((seq, s)) => if s == prompt {
                Some((seq, s))
            } else {
                Some(((before.len() + 1) as u64, prompt))
            },
            None => Some(((before.len() + 1) as u64, prompt)),
        }),
{
    let n = before.len() as int;
    assert forall|i: int| 0 <= i < before.len() implies (#[trigger] before[i]).seq == i by {
        assert(after.take(n)[i] == after[i]);
    }
    lemma_brackets_within(before);
    assert forall|i: int| n <= i < after.len() implies (#[trigger] after[i]).event == rows[i - n] by {
        assert(events_since(after, n)[i - n] == after[n + (i - n)].event);
    }
    let fresh = match head {
        Some((_, s)) => s != prompt,
        None => true,
    };
    let base = if fresh {
        2int
    } else {
        1int
    };
    assert forall|i: int| base <= i < rows.len() implies rows[i] is UserMessage by {
        if i < base + messages.len() {
            assert(rows[base + (i - base)] == SessionEvent::UserMessage(messages[i - base]));
        }
    }
    let opened = after.take(n + 1);
    assert(opened.drop_last() =~= before);
    assert(opened.last() == after[n]);
    assert(after[n].event == rows[0]);
    assert forall|i: int| opened.len() <= i < after.len() implies !is_bracket(
        (#[trigger] after[i]).event,
    ) by {
        assert(after[i].event == rows[i - n]);
    }
    lemma_quiet(opened, after);
    let told = after.take(n + base);
    assert forall|i: int| told.len() <= i < after.len() implies !((
    #[trigger] after[i]).event is SystemMessage) by {
        assert(after[i].event == rows[i - n]);
    }
    lemma_head_stays(told, after);
    if fresh {
        assert(told.last() == after[n + 1]);
        assert(after[n + 1].event == rows[1]);
    } else {
        assert(told =~= opened);
        assert(opened.take(n) =~= before);
        assert(opened[n] == after[n]);
        lemma_head_stays(before, opened);
    }
}

/// What observers see of a failure.
pub fn error_event(failure: &Failure) -> (r: AgentEvent)
    ensures
        r == (AgentEvent::Error { message: failure.message, code: failure.code }),
{
    AgentEvent::Error { message: failure.message.clone(), code: failure.code.clone() }
}

/// The tool calls of an answer while they are run, one after the other.
pub struct ToolRound {
    pub calls: Vec<Call>,
    /// Whether each call that was answered concluded the turn.
    pub concluded: Vec<bool>,
}

impl ToolRound {
    /// Whether no more calls were answered than there are.
    pub open spec fn well_formed(self) -> bool {
        self.concluded@.len() <= self.calls@.len()
    }

    /// The calls of an answer, none of them run.
    pub fn new(calls: Vec<Call>) -> (r: Self)
        ensures
            r.well_formed(),
            r.calls == calls,
            r.concluded@.len() == 0,
    {
        ToolRound { calls, concluded: Vec::new() }
    }

    /// The call to run next: the first that was not answered, whether one before
    /// it concluded the turn or not. Nothing where all were.
    pub fn next_call(&self) -> (r: Option<&Call>)
        requires
            self.well_formed(),
        ensures
            match r {
                Some(call) => self.concluded@.len() < self.calls@.len() && *call
                    == self.calls@[self.concluded@.len() as int],
                None => self.concluded@.len() == self.calls@.len(),
            },
    {
        let n: usize = self.concluded.len();
        if n < self.calls.len() {
            Some(&self.calls[n])
        } else {
            None
        }
    }

    /// Notes that the call was answered, and whether it concluded the turn.
    pub fn answered(&mut self, concludes: bool)
        requires
            old(self).concluded@.len() < old(self).calls@.len(),
        ensures
            final(self).well_formed(),
            final(self).calls == old(self).calls,
            final(self).concluded@ == old(self).concluded@.push(concludes),
    {
        self.concluded.push(concludes);
    }

    /// How the step ends, once every call was answered.
    pub fn end(&self) -> (r: Option<StepEnd>)
        requires
            self.well_formed(),
        ensures
            r == (if self.concluded@.len() < self.calls@.len() {
                None
            } else if agent::any_concluded(self.concluded@) {
                Some(StepEnd::Concluded(TurnEndReason::Completed))
            } else {
                Some(StepEnd::NeedsAnotherStep)
            }),
    {
        if self.concluded.len() < self.calls.len() {
            None
        } else {
            Some(agent::after_tools(&self.concluded))
        }
    }
}

/// The row of a call that is run.
pub open spec fn call_row(turn: u64, step: u64, call: Call) -> SessionEvent {
    SessionEvent::ToolCall { turn, step, call_id: call.0, name: call.1, arguments: call.2 }
}

/// Whether a row is the answer to a call, and concluded the turn or not.
pub open spec fn answer_row(
    row: SessionEvent,
    turn: u64,
    step: u64,
    call: Call,
    concludes: bool,
) -> bool {
    exists|a: ToolAnswer|
        #[trigger] agent::result_row(row, turn, step, call.0, a) && a.concludes_turn == concludes
}

/// Whether rows are the calls that were answered, in order, each with its
/// answer behind it.
pub open spec fn round_rows(rows: Seq<SessionEvent>, turn: u64, step: u64, round: ToolRound) -> bool {
    &&& round.well_formed()
    &&& rows.len() == 2 * round.concluded@.len()
    &&& forall|i: int|
        0 <= i < round.concluded@.len() ==> rows[2 * i] == call_row(
            turn,
            step,
            #[trigger] round.calls@[i],
        ) && answer_row(rows[2 * i + 1], turn, step, round.calls@[i], round.concluded@[i])
}

/// Every call of an answer is run, in order, also behind one that concluded the
/// turn: where the calls so far stand in the log in order, and the next call and
/// its answer follow, they do still; and a step ends only when all of them do.
pub proof fn calls_are_run_in_order(
    rows: Seq<SessionEvent>,
    turn: u64,
    step: u64,
    before: ToolRound,
    after: ToolRound,
    answer: SessionEvent,
)
    requires
        round_rows(rows, turn, step, before),
        before.concluded@.len() < before.calls@.len(),
        after.calls == before.calls,
        after.concluded@.len() == before.concluded@.len() + 1,
        after.concluded@.drop_last() == before.concluded@,
        answer_row(
            answer,
            turn,
            step,
            before.calls@[before.concluded@.len() as int],
            after.concluded@.last(),
        ),
    ensures
        round_rows(
            rows.push(
                call_row(turn, step, before.calls@[before.concluded@.len() as int]),
            ).push(answer),
            turn,
            step,
            after,
        ),
{
    let n = before.concluded@.len() as int;
    let all = rows.push(call_row(turn, step, before.calls@[n])).push(answer);
    assert forall|i: int| 0 <= i < after.concluded@.len() implies all[2 * i] == call_row(
        turn,
        step,
        #[trigger] after.calls@[i],
    ) && answer_row(all[2 * i + 1], turn, step, after.calls@[i], after.concluded@[i]) by {
        if i < n {
            assert(before.concluded@[i] == after.concluded@.drop_last()[i]);
            assert(rows[2 * i] == call_row(turn, step, before.calls@[i]));
            assert(all[2 * i] == rows[2 * i] && all[2 * i + 1] == rows[2 * i + 1]);
        }
    }
}

/// What follows a finished request, with what observers see.
pub enum Settled {
    /// The request is made again.
    Retry,
    /// The step failed.
    Failed { seen: AgentEvent, end: StepEnd },
    /// The step is done.
    Done { seen: AgentEvent, end: StepEnd },
    /// Tools are to be run.
    Tools { seen: AgentEvent, calls: Vec<Call> },
}

/// Whether `r` is what a failure leads to.
pub open spec fn fails_with(r: Settled, failure: Failure) -> bool {
    r == (Settled::Failed {
        seen: AgentEvent::Error { message: failure.message, code: failure.code },
        end: StepEnd::Concluded(TurnEndReason::Error(failure)),
    })
}

/// Whether `r` is what an answer leads to: the end of the turn where it ran out
/// of tokens or asks for no tool, else the tools.
pub open spec fn answers_with(
    r: Settled,
    content: Seq<ContentBlock>,
    provider: Seq<char>,
    model: Seq<char>,
    out_of_tokens: bool,
    usage: Option<TokenUsage>,
) -> bool {
    if out_of_tokens {
        r matches Settled::Done { seen, end } && agent::shows_answer(
            seen,
            content,
            provider,
            model,
            usage,
        ) && end == StepEnd::Concluded(TurnEndReason::MaxTokens)
    } else if agent::calls_in(content).len() == 0 {
        r matches Settled::Done { seen, end } && agent::shows_answer(
            seen,
            content,
            provider,
            model,
            usage,
        ) && end == StepEnd::Concluded(TurnEndReason::Completed)
    } else {
        r matches Settled::Tools { seen, calls } && agent::shows_answer(
            seen,
            content,
            provider,
            model,
            usage,
        ) && calls@ == agent::calls_in(content)
    }
}

impl ReactLoopAgent {
    /// Takes the end of a request: `retry` is what was decided on a failure,
    /// and `blocks` the parts of the answer. An answer is logged.
    pub fn settle(
        &mut self,
        finish: FinishReason,
        retry: bool,
        blocks: Result<Vec<ContentBlock>, Failure>,
        provider: &str,
        model: &str,
        usage: Option<TokenUsage>,
    ) -> (r: Settled)
        requires
            old(self).well_formed(),
            old(self).stands(TurnPhase::Running),
            old(self).has_room(1),
        ensures
            final(self).well_formed(),
            wrote(*old(self), *final(self)),
            final(self).turn == old(self).turn,
            ({
                let before = old(self).session.entries@;
                let rows = events_since(final(self).session.entries@, before.len() as int);
                let kept = final(self).session == old(self).session;
                &&& logs(before, rows, final(self).session.entries@)
                &&& match (finish, blocks) {
                    (FinishReason::Error(failure), _) => kept && if retry {
                        r is Retry
                    } else {
                        fails_with(r, failure)
                    },
                    (FinishReason::Aborted(failure), _) => kept && if retry {
                        r is Retry
                    } else {
                        fails_with(r, failure)
                    },
                    (_, Err(failure)) => kept && fails_with(r, failure),
                    (_, Ok(content)) => rows.len() == 1 && agent::answer_row(
                        rows[0],
                        old(self).turn->0.turn,
                        old(self).turn->0.step,
                        content,
                        provider@,
                        model@,
                        false,
                        usage,
                    ) && answers_with(r, content@, provider@, model@, finish is MaxTokens, usage),
                }
            }),
    {
        let ghost before = self.session.entries@;
        proof {
            assert(before.take(before.len() as int) =~= before);
            assert(events_since(before, before.len() as int) =~= Seq::<SessionEvent>::empty());
        }
        let (turn, step) = self.place();
        let shown: Vec<ContentBlock> = match &blocks {
            Ok(content) => session::copy_content(content),
            Err(_) => Vec::new(),
        };
        let outcome: StepOutcome = agent::settle_request(
            turn,
            step,
            finish,
            retry,
            blocks,
            provider,
            model,
            usage,
        );
        match outcome {
            StepOutcome::Retry => Settled::Retry,
            StepOutcome::Failed(failure) => {
                let seen: AgentEvent = error_event(&failure);
                Settled::Failed { seen, end: StepEnd::Concluded(TurnEndReason::Error(failure)) }
            },
            StepOutcome::Done { row, reason } => {
                self.log_quiet(row);
                Settled::Done {
                    seen: agent::answer_event(shown, provider, model, usage),
                    end: StepEnd::Concluded(reason),
                }
            },
            StepOutcome::Tools { row, calls } => {
                self.log_quiet(row);
                Settled::Tools {
                    seen: agent::answer_event(shown, provider, model, usage),
                    calls,
                }
            },
        }
    }

    /// Notes a summary of the first `boundary` of the messages at `seqs`, where
    /// it covers any; gives what observers see of it.
    pub fn compact(
        &mut self,
        seqs: &Vec<u64>,
        boundary: usize,
        summary: String,
        nanos: u128,
        tokens: u64,
        provider: &str,
        model: &str,
    ) -> (r: Option<AgentEvent>)
        requires
            old(self).well_formed(),
            old(self).has_room(1),
            boundary <= seqs@.len(),
        ensures
            final(self).well_formed(),
            wrote(*old(self), *final(self)),
            final(self).turn == old(self).turn,
            r == (if boundary == 0 {
                None
            } else {
                Some(AgentEvent::Compacted { shadowed_messages: boundary })
            }),
            boundary == 0 ==> final(self).session == old(self).session,
            boundary > 0 ==> ({
                let before = old(self).session.entries@;
                let rows = events_since(final(self).session.entries@, before.len() as int);
                &&& logs(before, rows, final(self).session.entries@)
                &&& rows.len() == 1
                &&& agent::is_checkpoint(
                    rows[0],
                    seqs@,
                    boundary as int,
                    summary,
                    nanos,
                    tokens,
                    provider@,
                    model@,
                )
            }),
    {
        match agent::checkpoint_row(seqs, boundary, summary, nanos, tokens, provider, model) {
            Some(row) => {
                self.log_quiet(row);
                Some(AgentEvent::Compacted { shadowed_messages: boundary })
            },
            None => None,
        }
    }
}

// ---------------------------------------------------------------------------
// laws
// ---------------------------------------------------------------------------

/// While a turn runs, the log has one open turn, which is that turn.
pub proof fn running_turn_is_the_open_one(a: ReactLoopAgent)
    requires
        a.well_formed(),
        a.turn is Some,
    ensures
        exists|i: int|
            0 <= i < a.session.entries@.len() && (#[trigger] a.session.entries@[i]).event == (
            SessionEvent::TurnStart { turn: a.turn->0.turn }) && boundary::no_turn_from(
                a.session.entries@,
                i + 1,
            ),
{
    let entries = a.session.entries@;
    boundary::open_turn_is_the_unfinished_one(entries);
    let seq = boundary::boundary_of(entries).open_turn_start_seq->0;
    let i = choose|i: int|
        0 <= i < entries.len() && (#[trigger] entries[i]).event is TurnStart && entries[i].seq
            == seq && boundary::no_turn_from(entries, i + 1);
    assert forall|j: int| i < j < entries.len() implies !((
    #[trigger] entries[j]).event is TurnStart) by {}
    boundary::last_turn_is_the_latest(entries, i);
    assert(entries[i].event == SessionEvent::TurnStart { turn: a.turn->0.turn });
}

/// What is logged while a step runs does not change which turn and step the log
/// is in.
pub proof fn quiet_events_keep_the_place(
    before: Seq<SessionEntry>,
    rows: Seq<SessionEvent>,
    after: Seq<SessionEntry>,
)
    requires
        logs(before, rows, after),
        forall|i: int| 0 <= i < rows.len() ==> !is_bracket(#[trigger] rows[i]),
    ensures
        boundary::boundary_of(after) == boundary::boundary_of(before),
{
    let n = before.len() as int;
    assert forall|i: int| n <= i < after.len() implies !is_bracket((#[trigger] after[i]).event) by {
        assert(events_since(after, n)[i - n] == after[n + (i - n)].event);
        assert(!is_bracket(rows[i - n]));
    }
    lemma_quiet(before, after);
}

/// Logging appends: what was there stays, and each row follows with its event.
pub proof fn logging_appends(
    before: Seq<SessionEntry>,
    rows: Seq<SessionEvent>,
    after: Seq<SessionEntry>,
    i: int,
)
    requires
        logs(before, rows, after),
    ensures
        after.len() == before.len() + rows.len(),
        0 <= i < before.len() ==> after[i] == before[i],
        0 <= i < rows.len() ==> after[before.len() + i].event == rows[i],
{
    if 0 <= i < before.len() {
        assert(after.take(before.len() as int)[i] == after[i]);
    }
    if 0 <= i < rows.len() {
        assert(events_since(after, before.len() as int)[i] == rows[i]);
    }
}

/// The header and the route of a log are those that it was given last.
pub proof fn last_header_counts(a: Seq<SessionEntry>, e: SessionEntry)
    ensures
        e.event matches SessionEvent::RequestHeader { header, .. } ==> last_header(a.push(e))
            == Some(header) && last_route(a.push(e)) == Some(
            (header.config.provider@, header.config.model@),
        ),
        !(e.event is RequestHeader) ==> last_header(a.push(e)) == last_header(a) && last_route(
            a.push(e),
        ) == last_route(a),
        last_header(Seq::empty()) is None,
        last_route(Seq::empty()) is None,
{
    assert(a.push(e).drop_last() =~= a);
}

/// An answer is carried out whole: one that ran out of tokens ends the turn for
/// that, one without calls completes it, and otherwise every call that the
/// answer makes is to be run.
pub proof fn answer_is_carried_out(
    r: Settled,
    content: Seq<ContentBlock>,
    provider: Seq<char>,
    model: Seq<char>,
    out_of_tokens: bool,
    usage: Option<TokenUsage>,
)
    requires
        answers_with(r, content, provider, model, out_of_tokens, usage),
    ensures
        ({
            let made = content.filter(|b: ContentBlock| b is ToolCall);
            &&& out_of_tokens ==> r is Done && r->Done_end == StepEnd::Concluded(
                TurnEndReason::MaxTokens,
            )
            &&& !out_of_tokens && made.len() == 0 ==> r is Done && r->Done_end
                == StepEnd::Concluded(TurnEndReason::Completed)
            &&& !out_of_tokens && made.len() > 0 ==> r is Tools && r->calls@.len() == made.len()
                && forall|i: int|
                0 <= i < made.len() ==> #[trigger] r->calls@[i] == (
                    made[i]->ToolCall_id,
                    made[i]->ToolCall_name,
                    made[i]->ToolCall_arguments,
                )
            &&& r is Done ==> r->Done_seen is AssistantMessage
                && r->Done_seen->AssistantMessage_message.content@.len() == content.len()
            &&& r is Tools ==> r->Tools_seen is AssistantMessage
                && r->Tools_seen->AssistantMessage_message.content@.len() == content.len()
        }),
{
    agent::every_call_is_found(content);
}

/// A failure is told to observers and ends the turn, with its code and message.
pub proof fn failure_ends_the_turn(r: Settled, failure: Failure)
    requires
        fails_with(r, failure),
    ensures
        r is Failed,
        r->Failed_seen is Error,
        r->Failed_seen->Error_message == failure.message,
        r->Failed_seen->code == failure.code,
        r->Failed_end == StepEnd::Concluded(TurnEndReason::Error(failure)),
{
}

/// Once every call of an answer was answered, the log holds for each call, in
/// order, the call itself and behind it a result with its id.
pub proof fn finished_round_answered_every_call(
    rows: Seq<SessionEvent>,
    turn: u64,
    step: u64,
    round: ToolRound,
    i: int,
)
    requires
        round_rows(rows, turn, step, round),
        round.concluded@.len() == round.calls@.len(),
        0 <= i < round.calls@.len(),
    ensures
        rows.len() == 2 * round.calls@.len(),
        rows[2 * i] matches SessionEvent::ToolCall { turn: t, step: s, call_id, name, arguments }
            && t == turn && s == step && call_id == round.calls@[i].0 && name == round.calls@[i].1
            && arguments == round.calls@[i].2,
        rows[2 * i + 1] matches SessionEvent::ToolResult { turn: t, step: s, message, .. } && t
            == turn && s == step && message.content@.len() == 1 && (
        message.content@[0] matches ContentBlock::ToolResult { tool_call_id, .. } && tool_call_id
            == round.calls@[i].0),
{
    assert(rows[2 * i] == call_row(turn, step, round.calls@[i]));
    let a = choose|a: ToolAnswer|
        #[trigger] agent::result_row(rows[2 * i + 1], turn, step, round.calls@[i].0, a)
            && a.concludes_turn == round.concluded@[i];
    assert(agent::result_row(rows[2 * i + 1], turn, step, round.calls@[i].0, a));
}

/// A text that is put in becomes a message of the user that says it.
pub proof fn typed_text_is_said(m: Message, text: String)
    requires
        says(m, text),
    ensures
        session::plain_text(m.content@) == text@,
        m.role == session::MessageRole::User,
        m.source == session::MessageSource::User,
{
    let b = ContentBlock::Text { text };
    assert(m.content@ =~= Seq::<ContentBlock>::empty().push(b));
    session::text_of_a_message_goes_on(Seq::empty(), b);
    assert(Seq::<char>::empty() + text@ =~= text@);
}

} // verus!
