//! Where the view points while the agent runs.
//!
//! The agent holds one session. While a turn runs, the view may point at
//! another session; events of the running session then stay out of the view,
//! the composer gives way, and when the turn is over the agent follows the
//! view.

use vstd::prelude::*;

verus! {

/// Whether a turn runs and whether the view points away from the agent's
/// session.
#[derive(Clone, Copy, Debug, PartialEq, Eq, Structural)]
pub struct ViewSplit {
    pub agent_busy: bool,
    pub peeking: bool,
}

impl Default for ViewSplit {
    fn default() -> (r: Self)
        ensures
            r == (ViewSplit { agent_busy: false, peeking: false }),
    {
        ViewSplit { agent_busy: false, peeking: false }
    }
}

impl ViewSplit {
    /// Whether the view and the agent agree whenever no turn runs.
    pub open spec fn settled(self) -> bool {
        !self.agent_busy ==> !self.peeking
    }

    /// Whether events of the running session reach the view.
    pub fn routes_to_view(&self) -> (r: bool)
        ensures
            r == !self.peeking,
    {
        !self.peeking
    }

    /// Whether the composer gives way to a session that runs elsewhere.
    pub fn composer_inert(&self) -> (r: bool)
        ensures
            r == (self.agent_busy && self.peeking),
    {
        self.agent_busy && self.peeking
    }

    /// Whether the agent has to move to the session in view.
    pub fn needs_commit(&self) -> (r: bool)
        ensures
            r == (self.peeking && !self.agent_busy),
            r == !self.settled(),
    {
        self.peeking && !self.agent_busy
    }

    /// A turn starts.
    pub fn on_turn_start(&mut self)
        ensures
            *final(self) == (ViewSplit { agent_busy: true, peeking: old(self).peeking }),
    {
        self.agent_busy = true;
    }

    /// A turn is over; says whether the agent has to move to the session in
    /// view.
    pub fn on_turn_end(&mut self) -> (r: bool)
        ensures
            *final(self) == (ViewSplit { agent_busy: false, peeking: old(self).peeking }),
            r == old(self).peeking,
            r == !final(self).settled(),
    {
        self.agent_busy = false;
        self.needs_commit()
    }

    /// The view moves to a session that is not the agent's.
    pub fn peek(&mut self)
        ensures
            *final(self) == (ViewSplit { agent_busy: old(self).agent_busy, peeking: true }),
    {
        self.peeking = true;
    }

    /// The view is back at the agent's session.
    pub fn settle(&mut self)
        ensures
            *final(self) == (ViewSplit { agent_busy: old(self).agent_busy, peeking: false }),
            final(self).settled(),
    {
        self.peeking = false;
    }
}

/// What can happen to the view and the agent.
pub enum SplitEvent {
    TurnStart,
    /// The end of a turn, with the agent following the view where it has to.
    TurnEnd,
    /// A look at another session; while no turn runs the agent moves along.
    Look,
    Settle,
}

/// The state after an event.
pub open spec fn split_after(s: ViewSplit, e: SplitEvent) -> ViewSplit {
    match e {
        SplitEvent::TurnStart => ViewSplit { agent_busy: true, ..s },
        SplitEvent::TurnEnd => ViewSplit { agent_busy: false, peeking: false },
        SplitEvent::Look => if s.agent_busy {
            ViewSplit { peeking: true, ..s }
        } else {
            s
        },
        SplitEvent::Settle => ViewSplit { peeking: false, ..s },
    }
}

/// The state after a sequence of events.
pub open spec fn split_after_all(s: ViewSplit, events: Seq<SplitEvent>) -> ViewSplit
    decreases events.len(),
{
    if events.len() == 0 {
        s
    } else {
        split_after(split_after_all(s, events.drop_last()), events.last())
    }
}

/// Whatever happens, the view shows the agent's session whenever no turn runs.
pub proof fn idle_view_is_the_agents(s: ViewSplit, events: Seq<SplitEvent>)
    requires
        s.settled(),
    ensures
        split_after_all(s, events).settled(),
    decreases events.len(),
{
    if events.len() > 0 {
        idle_view_is_the_agents(s, events.drop_last());
    }
}

/// Handles one event; `Look` and the end of a turn move the agent to the view
/// where no turn runs.
pub fn split_step(s: ViewSplit, e: &SplitEvent) -> (r: ViewSplit)
    ensures
        r == split_after(s, *e),
{
    let mut next: ViewSplit = s;
    match e {
        SplitEvent::TurnStart => next.on_turn_start(),
        SplitEvent::TurnEnd => {
            if next.on_turn_end() {
                next.settle();
            }
        },
        SplitEvent::Look => {
            if next.agent_busy {
                next.peek();
            }
        },
        SplitEvent::Settle => next.settle(),
    }
    next
}

/// A turn is over when it ended and not before, and the view leaves the agent
/// only while a turn runs.
pub proof fn view_leaves_only_a_running_agent(s: ViewSplit, e: SplitEvent)
    ensures
        split_after(s, e).agent_busy == (match e {
            SplitEvent::TurnStart => true,
            SplitEvent::TurnEnd => false,
            _ => s.agent_busy,
        }),
        split_after(s, e).peeking && !s.peeking ==> e is Look && s.agent_busy,
        s.agent_busy ==> split_after(s, SplitEvent::Look).peeking,
        s.peeking && !split_after(s, e).peeking ==> e is TurnEnd || e is Settle,
        !split_after(s, SplitEvent::Settle).peeking,
{
}

} // verus!
