//! Turn and step boundaries, folded from the session log.

use crate::session::{SessionEntry, SessionEvent};
use vstd::prelude::*;

verus! {

/// Whether a boundary opens or closes a step.
#[derive(Clone, Copy, Debug, PartialEq, Eq, Structural)]
pub enum StepBoundaryKind {
    Start,
    End,
}

/// A step boundary and its place in the log.
#[derive(Clone, Copy, Debug, PartialEq, Eq, Structural)]
pub struct StepBoundary {
    pub kind: StepBoundaryKind,
    pub seq: u64,
}

/// The boundaries of a log.
#[derive(Clone, Copy, Debug, PartialEq, Eq, Structural)]
pub struct TurnBoundaryProjection {
    /// Where the open turn started; nothing between turns.
    pub open_turn_start_seq: Option<u64>,
    /// Where the latest step started; nothing before the first.
    pub last_step_start_seq: Option<u64>,
    /// The latest step boundary.
    pub last_step_boundary: Option<StepBoundary>,
    /// The number of the latest turn; 0 before the first.
    pub last_turn: u64,
}

/// The boundaries of an empty log.
pub open spec fn no_boundaries() -> TurnBoundaryProjection {
    TurnBoundaryProjection {
        open_turn_start_seq: None,
        last_step_start_seq: None,
        last_step_boundary: None,
        last_turn: 0,
    }
}

impl Default for TurnBoundaryProjection {
    fn default() -> (r: Self)
        ensures
            r == no_boundaries(),
    {
        TurnBoundaryProjection {
            open_turn_start_seq: None,
            last_step_start_seq: None,
            last_step_boundary: None,
            last_turn: 0,
        }
    }
}

/// The boundaries after one more entry.
pub open spec fn boundary_after(
    state: TurnBoundaryProjection,
    e: SessionEntry,
) -> TurnBoundaryProjection {
    match e.event {
        SessionEvent::TurnStart { turn } => TurnBoundaryProjection {
            open_turn_start_seq: Some(e.seq),
            last_turn: turn,
            ..state
        },
        SessionEvent::TurnEnd { .. } => TurnBoundaryProjection {
            open_turn_start_seq: None,
            ..state
        },
        SessionEvent::StepStart { .. } => TurnBoundaryProjection {
            last_step_start_seq: Some(e.seq),
            last_step_boundary: Some(StepBoundary { kind: StepBoundaryKind::Start, seq: e.seq }),
            ..state
        },
        SessionEvent::StepEnd { .. } => TurnBoundaryProjection {
            last_step_boundary: Some(StepBoundary { kind: StepBoundaryKind::End, seq: e.seq }),
            ..state
        },
        _ => state,
    }
}

/// The boundaries of a log.
pub open spec fn boundary_of(entries: Seq<SessionEntry>) -> TurnBoundaryProjection
    decreases entries.len(),
{
    if entries.len() == 0 {
        no_boundaries()
    } else {
        boundary_after(boundary_of(entries.drop_last()), entries.last())
    }
}

/// How a projection is registered, and how it is folded.
pub struct ProjectionDefinition {
    pub key: &'static str,
    pub state_version: u32,
}

/// The projection of turn and step boundaries.
pub fn turn_boundary_projection_definition() -> (r: ProjectionDefinition)
    ensures
        r.key@ == "turnBoundary"@,
        r.state_version == 2,
{
    ProjectionDefinition { key: "turnBoundary", state_version: 2 }
}

impl ProjectionDefinition {
    /// The state of an empty log.
    pub fn init(&self) -> (r: TurnBoundaryProjection)
        ensures
            r == no_boundaries(),
    {
        TurnBoundaryProjection::default()
    }

    /// The state after one more entry.
    pub fn apply(&self, state: &TurnBoundaryProjection, entry: &SessionEntry) -> (r:
        TurnBoundaryProjection)
        ensures
            r == boundary_after(*state, *entry),
    {
        let mut next: TurnBoundaryProjection = *state;
        match &entry.event {
            SessionEvent::TurnStart { turn } => {
                next.open_turn_start_seq = Some(entry.seq);
                next.last_turn = *turn;
            },
            SessionEvent::TurnEnd { .. } => {
                next.open_turn_start_seq = None;
            },
            SessionEvent::StepStart { .. } => {
                next.last_step_start_seq = Some(entry.seq);
                next.last_step_boundary = Some(
                    StepBoundary { kind: StepBoundaryKind::Start, seq: entry.seq },
                );
            },
            SessionEvent::StepEnd { .. } => {
                next.last_step_boundary = Some(
                    StepBoundary { kind: StepBoundaryKind::End, seq: entry.seq },
                );
            },
            _ => {},
        }
        next
    }

    /// The state of a whole log.
    pub fn fold(&self, entries: &Vec<SessionEntry>) -> (r: TurnBoundaryProjection)
        ensures
            r == boundary_of(entries@),
    {
        let mut state: TurnBoundaryProjection = self.init();
        let mut i: usize = 0;
        assert(entries@.take(0) =~= Seq::<SessionEntry>::empty());
        while i < entries.len()
            invariant
                i <= entries@.len(),
                state == boundary_of(entries@.take(i as int)),
            decreases entries@.len() - i,
        {
            let ghost next = entries@.take(i + 1);
            assert(next.drop_last() =~= entries@.take(i as int));
            state = self.apply(&state, &entries[i]);
            i = i + 1;
        }
        assert(entries@.take(i as int) =~= entries@);
        state
    }
}

// ---------------------------------------------------------------------------
// laws
// ---------------------------------------------------------------------------

/// Whether no entry of `entries[from..]` starts or ends a turn.
pub open spec fn no_turn_from(entries: Seq<SessionEntry>, from: int) -> bool {
    forall|i: int|
        from <= i < entries.len() ==> !((#[trigger] entries[i]).event is TurnStart)
            && !(entries[i].event is TurnEnd)
}

/// A turn is open exactly where the log started one and ended none since; the
/// boundary then names where it started.
pub proof fn open_turn_is_the_unfinished_one(entries: Seq<SessionEntry>)
    ensures
        boundary_of(entries).open_turn_start_seq matches Some(seq) ==> exists|i: int|
            0 <= i < entries.len() && (#[trigger] entries[i]).event is TurnStart && entries[i].seq
                == seq && no_turn_from(entries, i + 1),
        boundary_of(entries).open_turn_start_seq is None ==> no_turn_from(entries, 0) || exists|
            i: int,
        |
            0 <= i < entries.len() && (#[trigger] entries[i]).event is TurnEnd && no_turn_from(
                entries,
                i + 1,
            ),
    decreases entries.len(),
{
    if entries.len() > 0 {
        let head = entries.drop_last();
        let n = entries.len() - 1;
        open_turn_is_the_unfinished_one(head);
        if entries.last().event is TurnStart || entries.last().event is TurnEnd {
            assert(entries[n] == entries.last());
            assert(no_turn_from(entries, n + 1));
        } else {
            assert forall|from: int| 0 <= from && #[trigger] no_turn_from(head, from) implies
                no_turn_from(entries, from) by {
                assert forall|i: int| from <= i < entries.len() implies !((
                #[trigger] entries[i]).event is TurnStart) && !(entries[i].event is TurnEnd) by {
                    if i < n {
                        assert(head[i] == entries[i]);
                    }
                }
            }
            if boundary_of(head).open_turn_start_seq is Some {
                let i = choose|i: int|
                    0 <= i < head.len() && (#[trigger] head[i]).event is TurnStart && head[i].seq
                        == boundary_of(head).open_turn_start_seq->0 && no_turn_from(head, i + 1);
                assert(entries[i] == head[i]);
                assert(no_turn_from(entries, i + 1));
            } else if !no_turn_from(head, 0) {
                let i = choose|i: int|
                    0 <= i < head.len() && (#[trigger] head[i]).event is TurnEnd && no_turn_from(
                        head,
                        i + 1,
                    );
                assert(entries[i] == head[i]);
                assert(no_turn_from(entries, i + 1));
            }
        }
    }
}

/// The latest turn number is that of the last turn that the log started.
pub proof fn last_turn_is_the_latest(entries: Seq<SessionEntry>, i: int)
    requires
        0 <= i < entries.len(),
        entries[i].event is TurnStart,
        forall|j: int| i < j < entries.len() ==> !((#[trigger] entries[j]).event is TurnStart),
    ensures
        boundary_of(entries).last_turn == entries[i].event->TurnStart_turn,
    decreases entries.len(),
{
    if i < entries.len() - 1 {
        let head = entries.drop_last();
        assert forall|j: int| i < j < head.len() implies !((#[trigger] head[j]).event is TurnStart)
            by {
            assert(head[j] == entries[j]);
        }
        last_turn_is_the_latest(head, i);
        assert(!(entries[entries.len() - 1].event is TurnStart));
    }
}

/// Folding a log in two parts is folding it whole: what is appended is applied
/// to the state that was reached.
pub proof fn fold_goes_entry_by_entry(entries: Seq<SessionEntry>, e: SessionEntry)
    ensures
        boundary_of(entries.push(e)) == boundary_after(boundary_of(entries), e),
{
    assert(entries.push(e).drop_last() =~= entries);
}

/// The latest boundary of a step is the last that the log holds, with its place
/// and whether it starts or ends a step; what is no boundary changes nothing.
pub proof fn latest_boundary_counts(entries: Seq<SessionEntry>, e: SessionEntry)
    ensures
        ({
            let before = boundary_of(entries);
            let after = boundary_of(entries.push(e));
            &&& boundary_of(Seq::empty()).last_step_boundary is None
            &&& boundary_of(Seq::empty()).open_turn_start_seq is None
            &&& boundary_of(Seq::empty()).last_turn == 0
            &&& e.event is StepStart ==> after.last_step_start_seq == Some(e.seq)
                && after.last_step_boundary == Some(
                StepBoundary { kind: StepBoundaryKind::Start, seq: e.seq },
            )
            &&& e.event is StepEnd ==> after.last_step_start_seq == before.last_step_start_seq
                && after.last_step_boundary == Some(
                StepBoundary { kind: StepBoundaryKind::End, seq: e.seq },
            )
            &&& e.event is TurnStart ==> after.open_turn_start_seq == Some(e.seq)
                && after.last_turn == e.event->TurnStart_turn && after.last_step_boundary
                == before.last_step_boundary
            &&& e.event is TurnEnd ==> after.open_turn_start_seq is None && after.last_turn
                == before.last_turn
            &&& !(e.event is TurnStart || e.event is TurnEnd || e.event is StepStart || e.event
                is StepEnd) ==> after == before
        }),
{
    assert(entries.push(e).drop_last() =~= entries);
}

} // verus!
