//! Which rows of the transcript are shown: a finished turn is folded to its
//! answer, with the work before it behind one control row.

use crate::chat::{BlockView, ChatEntry, EntryView, MsgBlock, Role, ToolView};
use crate::process::ProcessActivity;
use crate::process;
use crate::text;
use std::collections::HashMap;
use vstd::prelude::*;

verus! {

broadcast use vstd::std_specs::hash::group_hash_axioms;

/// How finished turns are shown.
#[derive(Clone, Copy, Debug, PartialEq, Eq, Structural)]
pub enum TranscriptView {
    Normal,
    /// Folded to their answers.
    Compact,
}

/// The fold of a finished turn.
#[derive(Clone, Debug)]
pub struct TurnFold {
    /// The entry in whose place the control row stands.
    pub first_process: usize,
    /// The entry that holds the answer.
    pub answer: usize,
    /// The calls of tools, without those that delegate.
    pub tools: usize,
    /// The entries with a reply.
    pub messages: usize,
    /// The calls that delegate to another agent.
    pub subagents: usize,
    /// The kinds of the calls with their numbers, in rank order.
    pub activities: Vec<(ProcessActivity, usize)>,
}

// ---------------------------------------------------------------------------
// what a turn did
// ---------------------------------------------------------------------------

/// Whether an entry is an answer, or context, of a turn.
pub open spec fn in_turn(e: EntryView, turn: u64) -> bool {
    (e.role == Role::Assistant || e.role == Role::Context) && e.turn == turn
}

/// The last of the first `n` entries that answers in a turn.
pub open spec fn last_answer(entries: Seq<EntryView>, turn: u64, n: int) -> Option<int>
    decreases n,
{
    if n <= 0 {
        None
    } else if entries[n - 1].role == Role::Assistant && entries[n - 1].turn == turn {
        Some(n - 1)
    } else {
        last_answer(entries, turn, n - 1)
    }
}

/// The first of the first `n` entries that belongs to a turn.
pub open spec fn first_of_turn(entries: Seq<EntryView>, turn: u64, n: int) -> Option<int>
    decreases n,
{
    if n <= 0 {
        None
    } else {
        match first_of_turn(entries, turn, n - 1) {
            Some(i) => Some(i),
            None => if in_turn(entries[n - 1], turn) {
                Some(n - 1)
            } else {
                None
            },
        }
    }
}

/// Whether a part is text that is not blank.
pub open spec fn speaks(b: BlockView) -> bool {
    b matches BlockView::Text(s) && text::trimmed(s).len() > 0
}

/// Whether an entry holds a reply.
pub open spec fn replies(blocks: Seq<BlockView>) -> bool {
    exists|i: int| 0 <= i < blocks.len() && speaks(#[trigger] blocks[i])
}

/// The tool calls among the parts.
pub open spec fn calls_in(blocks: Seq<BlockView>) -> Seq<ToolView>
    decreases blocks.len(),
{
    if blocks.len() == 0 {
        Seq::empty()
    } else {
        match blocks.last() {
            BlockView::Tool(t) => calls_in(blocks.drop_last()).push(t),
            _ => calls_in(blocks.drop_last()),
        }
    }
}

/// The tool calls of a turn among the first `n` entries.
pub open spec fn turn_calls(entries: Seq<EntryView>, turn: u64, n: int) -> Seq<ToolView>
    decreases n,
{
    if n <= 0 {
        Seq::empty()
    } else if in_turn(entries[n - 1], turn) {
        turn_calls(entries, turn, n - 1) + calls_in(entries[n - 1].blocks)
    } else {
        turn_calls(entries, turn, n - 1)
    }
}

/// How many of the first `n` entries are of a turn and hold a reply.
pub open spec fn turn_replies(entries: Seq<EntryView>, turn: u64, n: int) -> nat
    decreases n,
{
    if n <= 0 {
        0
    } else if in_turn(entries[n - 1], turn) && replies(entries[n - 1].blocks) {
        turn_replies(entries, turn, n - 1) + 1
    } else {
        turn_replies(entries, turn, n - 1)
    }
}

/// Whether a tool delegates to another agent.
pub open spec fn delegates(name: Seq<char>) -> bool {
    name == "subagent"@ || text::begins(name, "subagent_"@)
}

/// How many calls delegate.
pub open spec fn delegations(calls: Seq<ToolView>) -> nat
    decreases calls.len(),
{
    if calls.len() == 0 {
        0
    } else if delegates(calls.last().name) {
        delegations(calls.drop_last()) + 1
    } else {
        delegations(calls.drop_last())
    }
}

/// The calls as pairs of call id and kind.
pub open spec fn call_kinds(calls: Seq<ToolView>) -> Seq<(Seq<char>, ProcessActivity)> {
    calls.map_values(|c: ToolView| (c.id, process::call_activity(c.name, c.arguments)))
}

/// The entry to which a turn folds: its last answer, where the turn is closed,
/// that answer replies and calls no tool, and something of the turn goes
/// before it.
pub open spec fn fold_answer(entries: Seq<EntryView>, open: Option<u64>, turn: u64) -> Option<int> {
    match last_answer(entries, turn, entries.len() as int) {
        Some(a) => if open != Some(turn) && replies(entries[a].blocks) && calls_in(
            entries[a].blocks,
        ).len() == 0 && first_of_turn(entries, turn, a) is Some {
            Some(a)
        } else {
            None
        },
        None => None,
    }
}

/// Whether `f` is the fold of a turn to the answer at `a`.
pub open spec fn is_fold(entries: Seq<EntryView>, turn: u64, a: int, f: TurnFold) -> bool {
    let calls = turn_calls(entries, turn, a);
    &&& f.answer == a
    &&& first_of_turn(entries, turn, a) == Some(f.first_process as int)
    &&& f.subagents == delegations(calls)
    &&& f.tools == calls.len() - delegations(calls)
    &&& f.messages == turn_replies(entries, turn, a)
    &&& process::ranks(process::distinct_kinds(call_kinds(calls)), f.activities@)
}

pub proof fn lemma_first_of_turn(entries: Seq<EntryView>, turn: u64, n: int)
    requires
        n <= entries.len(),
    ensures
        first_of_turn(entries, turn, n) matches Some(i) ==> 0 <= i < n && in_turn(entries[i], turn)
            && forall|j: int| 0 <= j < i ==> !in_turn(#[trigger] entries[j], turn),
        first_of_turn(entries, turn, n) is None ==> forall|j: int|
            0 <= j < n ==> !in_turn(#[trigger] entries[j], turn),
    decreases n,
{
    if n > 0 {
        lemma_first_of_turn(entries, turn, n - 1);
    }
}

proof fn lemma_last_answer(entries: Seq<EntryView>, turn: u64, n: int)
    requires
        n <= entries.len(),
    ensures
        last_answer(entries, turn, n) matches Some(i) ==> 0 <= i < n && in_turn(entries[i], turn)
            && entries[i].role == Role::Assistant,
        last_answer(entries, turn, n) is None ==> forall|j: int|
            0 <= j < n ==> !(#[trigger] entries[j].role == Role::Assistant && entries[j].turn
                == turn),
    decreases n,
{
    if n > 0 {
        lemma_last_answer(entries, turn, n - 1);
    }
}

proof fn lemma_calls_in(blocks: Seq<BlockView>)
    ensures
        calls_in(blocks).len() <= blocks.len(),
        calls_in(blocks).len() == 0 <==> forall|i: int|
            0 <= i < blocks.len() ==> !((#[trigger] blocks[i]) is Tool),
    decreases blocks.len(),
{
    if blocks.len() > 0 {
        let head = blocks.drop_last();
        lemma_calls_in(head);
        if calls_in(blocks).len() == 0 {
            assert forall|i: int| 0 <= i < blocks.len() implies !((#[trigger] blocks[i]) is Tool) by {
                if i < head.len() {
                    assert(head[i] == blocks[i]);
                }
            }
        } else if calls_in(head).len() > 0 {
            let i = choose|i: int| 0 <= i < head.len() && (#[trigger] head[i]) is Tool;
            assert(blocks[i] is Tool);
        } else {
            assert(blocks[blocks.len() - 1] is Tool);
        }
    }
}

/// A part of the parts holds no more calls than all of them.
pub proof fn lemma_calls_taken(blocks: Seq<BlockView>, n: int)
    requires
        0 <= n <= blocks.len(),
    ensures
        calls_in(blocks.take(n)).len() <= calls_in(blocks).len(),
    decreases blocks.len() - n,
{
    if n < blocks.len() {
        lemma_calls_taken(blocks, n + 1);
        assert(blocks.take(n + 1).drop_last() =~= blocks.take(n));
    } else {
        assert(blocks.take(n) =~= blocks);
    }
}

proof fn lemma_delegations(calls: Seq<ToolView>)
    ensures
        delegations(calls) <= calls.len(),
    decreases calls.len(),
{
    if calls.len() > 0 {
        lemma_delegations(calls.drop_last());
    }
}

fn is_delegation(name: &str) -> (r: bool)
    ensures
        r == delegates(name@),
{
    text::same(name, "subagent") || text::starts_with(name, "subagent_")
}

pub fn has_reply(blocks: &Vec<MsgBlock>) -> (r: bool)
    ensures
        r == replies(blocks.deep_view()),
{
    let ghost view = blocks.deep_view();
    let mut i: usize = 0;
    while i < blocks.len()
        invariant
            i <= blocks@.len(),
            view == blocks.deep_view(),
            forall|j: int| 0 <= j < i ==> !speaks(#[trigger] view[j]),
        decreases blocks@.len() - i,
    {
        assert(view[i as int] == blocks@[i as int].deep_view());
        if let MsgBlock::Text(s) = &blocks[i] {
            if !text::is_blank(s) {
                return true;
            }
        }
        i += 1;
    }
    false
}

pub fn has_call(blocks: &Vec<MsgBlock>) -> (r: bool)
    ensures
        r == (calls_in(blocks.deep_view()).len() > 0),
{
    let ghost view = blocks.deep_view();
    proof {
        lemma_calls_in(view);
    }
    let mut i: usize = 0;
    while i < blocks.len()
        invariant
            i <= blocks@.len(),
            view == blocks.deep_view(),
            calls_in(view).len() == 0 <==> forall|j: int|
                0 <= j < view.len() ==> !((#[trigger] view[j]) is Tool),
            forall|j: int| 0 <= j < i ==> !((#[trigger] view[j]) is Tool),
        decreases blocks@.len() - i,
    {
        assert(view[i as int] == blocks@[i as int].deep_view());
        if let MsgBlock::Tool(_) = &blocks[i] {
            return true;
        }
        i += 1;
    }
    false
}

/// The tool calls that are collected, and how many of them delegate.
struct Calls {
    list: Vec<(String, String, String)>,
    delegated: usize,
}

impl Calls {
    spec fn holds(self, calls: Seq<ToolView>) -> bool {
        &&& process::calls_view(self.list@) == call_kinds(calls)
        &&& self.delegated == delegations(calls)
    }

    fn add_block(&mut self, b: &MsgBlock, Ghost(calls): Ghost<Seq<ToolView>>)
        requires
            old(self).holds(calls),
        ensures
            final(self).holds(
                (match b.deep_view() {
                    BlockView::Tool(t) => calls.push(t),
                    _ => calls,
                }),
            ),
    {
        if let MsgBlock::Tool(t) = b {
            let ghost next = calls.push(t.deep_view());
            let ghost before = self.list@;
            assert(next.drop_last() =~= calls);
            proof {
                lemma_delegations(calls);
                assert(process::calls_view(before).len() == calls.len());
            }
            let delegation = is_delegation(&t.name);
            self.list.push((t.id.clone(), t.name.clone(), t.arguments.clone()));
            proof {
                let old_view = process::calls_view(before);
                let new_view = process::calls_view(self.list@);
                assert(new_view =~= old_view.push(
                    (t.id@, process::call_activity(t.name@, t.arguments@)),
                ));
                assert(call_kinds(next) =~= call_kinds(calls).push(
                    (t.id@, process::call_activity(t.name@, t.arguments@)),
                ));
            }
            if delegation {
                let n: usize = self.list.len();
                assert(self.delegated < n);
                self.delegated = self.delegated + 1;
            }
        }
    }

    fn add_blocks(&mut self, blocks: &Vec<MsgBlock>, Ghost(calls): Ghost<Seq<ToolView>>)
        requires
            old(self).holds(calls),
        ensures
            final(self).holds(calls + calls_in(blocks.deep_view())),
    {
        let ghost view = blocks.deep_view();
        let mut i: usize = 0;
        assert(calls + calls_in(view.take(0)) =~= calls);
        while i < blocks.len()
            invariant
                i <= blocks@.len(),
                view == blocks.deep_view(),
                self.holds(calls + calls_in(view.take(i as int))),
            decreases blocks@.len() - i,
        {
            let ghost so_far = calls + calls_in(view.take(i as int));
            assert(view.take(i + 1).drop_last() =~= view.take(i as int));
            assert(view.take(i + 1).last() == blocks@[i as int].deep_view());
            self.add_block(&blocks[i], Ghost(so_far));
            proof {
                if let BlockView::Tool(t) = view[i as int] {
                    assert(so_far.push(t) =~= calls + calls_in(view.take(i + 1)));
                }
            }
            i += 1;
        }
        assert(view.take(i as int) =~= view);
    }
}

fn entry_in_turn(e: &ChatEntry, turn: u64) -> (r: bool)
    ensures
        r == in_turn(e.deep_view(), turn),
{
    (e.role == Role::Assistant || e.role == Role::Context) && e.turn == turn
}

fn find_answer(entries: &Vec<ChatEntry>, turn: u64) -> (r: Option<usize>)
    ensures
        last_answer(entries.deep_view(), turn, entries@.len() as int) == (match r {
            Some(i) => Some(i as int),
            None => None,
        }),
{
    let ghost view = entries.deep_view();
    let mut n: usize = entries.len();
    while n > 0
        invariant
            n <= entries@.len(),
            view == entries.deep_view(),
            last_answer(view, turn, entries@.len() as int) == last_answer(view, turn, n as int),
        decreases n,
    {
        assert(view[n - 1] == entries@[n - 1].deep_view());
        if entries[n - 1].role == Role::Assistant && entries[n - 1].turn == turn {
            return Some(n - 1);
        }
        n -= 1;
    }
    None
}

/// The fold of a turn, where it folds.
pub fn turn_fold(entries: &Vec<ChatEntry>, turn_open: Option<u64>, turn: u64) -> (r: Option<TurnFold>)
    ensures
        match fold_answer(entries.deep_view(), turn_open, turn) {
            Some(a) => r matches Some(f) && is_fold(entries.deep_view(), turn, a, f),
            None => r is None,
        },
{
    let ghost view = entries.deep_view();
    assert(view.len() == entries@.len());
    let answer = match find_answer(entries, turn) {
        Some(a) => a,
        None => return None,
    };
    proof {
        lemma_last_answer(view, turn, view.len() as int);
        lemma_first_of_turn(view, turn, answer as int);
    }
    assert(view[answer as int] == entries@[answer as int].deep_view());
    let open = match turn_open {
        Some(t) => t == turn,
        None => false,
    };
    if open || !has_reply(&entries[answer].blocks) || has_call(&entries[answer].blocks) {
        return None;
    }
    let mut calls = Calls { list: Vec::new(), delegated: 0 };
    let mut messages: usize = 0;
    let mut first: Option<usize> = None;
    let mut i: usize = 0;
    assert(process::calls_view(calls.list@) =~= call_kinds(Seq::empty()));
    while i < answer
        invariant
            i <= answer < entries@.len(),
            view == entries.deep_view(),
            calls.holds(turn_calls(view, turn, i as int)),
            messages == turn_replies(view, turn, i as int),
            messages <= i,
            first_of_turn(view, turn, i as int) == (match first {
                Some(k) => Some(k as int),
                None => None,
            }),
        decreases answer - i,
    {
        assert(view[i as int] == entries@[i as int].deep_view());
        if entry_in_turn(&entries[i], turn) {
            if first.is_none() {
                first = Some(i);
            }
            calls.add_blocks(&entries[i].blocks, Ghost(turn_calls(view, turn, i as int)));
            if has_reply(&entries[i].blocks) {
                messages += 1;
            }
        }
        i += 1;
    }
    let ghost all = turn_calls(view, turn, answer as int);
    match first {
        Some(first_process) => {
            proof {
                lemma_delegations(all);
                assert(process::calls_view(calls.list@).len() == all.len());
            }
            let subagents: usize = calls.delegated;
            let tools: usize = calls.list.len() - subagents;
            let activities = process::process_activity_counts(calls.list);
            Some(TurnFold { first_process, answer, tools, messages, subagents, activities })
        },
        None => None,
    }
}

/// The folds of the finished turns, by turn; none where turns are shown whole.
pub fn turn_process_folds(
    entries: &Vec<ChatEntry>,
    turn_open: Option<u64>,
    view: TranscriptView,
) -> (r: HashMap<u64, TurnFold>)
    ensures
        forall|t: u64| #[trigger]
            r@.contains_key(t) <==> view == TranscriptView::Compact && fold_answer(
                entries.deep_view(),
                turn_open,
                t,
            ) is Some,
        forall|t: u64| #[trigger]
            r@.contains_key(t) ==> is_fold(
                entries.deep_view(),
                t,
                fold_answer(entries.deep_view(), turn_open, t)->0,
                r@[t],
            ),
{
    let ghost all = entries.deep_view();
    let mut out: HashMap<u64, TurnFold> = HashMap::new();
    if view != TranscriptView::Compact {
        return out;
    }
    let mut i: usize = 0;
    while i < entries.len()
        invariant
            i <= entries@.len(),
            all == entries.deep_view(),
            all.len() == entries@.len(),
            forall|t: u64| #[trigger]
                out@.contains_key(t) ==> fold_answer(all, turn_open, t) is Some && is_fold(
                    all,
                    t,
                    fold_answer(all, turn_open, t)->0,
                    out@[t],
                ),
            forall|j: int|
                0 <= j < i && fold_answer(all, turn_open, (#[trigger] all[j]).turn) is Some
                    ==> out@.contains_key(all[j].turn),
        decreases entries@.len() - i,
    {
        let turn: u64 = entries[i].turn;
        assert(all[i as int] == entries@[i as int].deep_view());
        if !out.contains_key(&turn) {
            if let Some(f) = turn_fold(entries, turn_open, turn) {
                out.insert(turn, f);
            }
        }
        i += 1;
    }
    assert forall|t: u64| fold_answer(all, turn_open, t) is Some implies #[trigger] out@.contains_key(
        t,
    ) by {
        lemma_last_answer(all, t, all.len() as int);
        let a = fold_answer(all, turn_open, t)->0;
        assert(all[a].turn == t);
    }
    out
}

/// How many tool calls are among the parts.
pub fn count_calls(blocks: &Vec<MsgBlock>) -> (r: usize)
    ensures
        r == calls_in(blocks.deep_view()).len(),
{
    let ghost view = blocks.deep_view();
    let mut n: usize = 0;
    let mut i: usize = 0;
    while i < blocks.len()
        invariant
            n <= i <= blocks@.len(),
            view == blocks.deep_view(),
            n == calls_in(view.take(i as int)).len(),
        decreases blocks@.len() - i,
    {
        assert(view.take(i + 1).drop_last() =~= view.take(i as int));
        assert(view.take(i + 1).last() == blocks@[i as int].deep_view());
        if let MsgBlock::Tool(_) = &blocks[i] {
            n += 1;
        }
        i += 1;
    }
    assert(view.take(i as int) =~= view);
    n
}

// ---------------------------------------------------------------------------
// laws
// ---------------------------------------------------------------------------

/// The calls of an entry are the tool parts among its parts: none is left out,
/// and they keep their order.
pub proof fn every_call_of_an_entry_counts(blocks: Seq<BlockView>)
    ensures
        calls_in(blocks) == blocks.filter(|b: BlockView| b is Tool).map_values(
            |b: BlockView| b->Tool_0,
        ),
    decreases blocks.len(),
{
    reveal(Seq::filter);
    let pick = |b: BlockView| b is Tool;
    let call = |b: BlockView| b->Tool_0;
    if blocks.len() > 0 {
        every_call_of_an_entry_counts(blocks.drop_last());
        let head = blocks.drop_last().filter(pick);
        if pick(blocks.last()) {
            assert(head.push(blocks.last()).map_values(call) =~= head.map_values(call).push(
                call(blocks.last()),
            ));
        }
    }
    assert(calls_in(blocks) =~= blocks.filter(pick).map_values(call));
}

/// The answer of a turn is its last one: no later entry is an answer of it.
pub proof fn last_answer_is_the_last(entries: Seq<EntryView>, turn: u64, n: int)
    requires
        n <= entries.len(),
    ensures
        match last_answer(entries, turn, n) {
            Some(a) => 0 <= a < n && entries[a].role == Role::Assistant && entries[a].turn == turn
                && forall|j: int|
                a < j < n ==> !((#[trigger] entries[j]).role == Role::Assistant && entries[j].turn
                    == turn),
            None => forall|j: int|
                0 <= j < n ==> !((#[trigger] entries[j]).role == Role::Assistant && entries[j].turn
                    == turn),
        },
    decreases n,
{
    if n > 0 && !(entries[n - 1].role == Role::Assistant && entries[n - 1].turn == turn) {
        last_answer_is_the_last(entries, turn, n - 1);
    }
}

/// What a fold says of a turn adds up: the calls that delegate and the others
/// are all the calls of the work before the answer, the work starts with the
/// first entry of the turn, and an entry of another turn counts for nothing.
pub proof fn fold_counts_the_work(
    entries: Seq<EntryView>,
    turn: u64,
    a: int,
    f: TurnFold,
    other: EntryView,
)
    requires
        0 <= a <= entries.len(),
        is_fold(entries, turn, a, f),
        !(other.turn == turn && (other.role == Role::Assistant || other.role == Role::Context)),
    ensures
        f.tools + f.subagents == turn_calls(entries, turn, a).len(),
        f.answer == a,
        f.first_process < a,
        entries[f.first_process as int].turn == turn,
        forall|j: int|
            0 <= j < f.first_process ==> !((#[trigger] entries[j]).turn == turn && (entries[j].role
                == Role::Assistant || entries[j].role == Role::Context)),
        turn_calls(entries.push(other), turn, entries.len() + 1int) == turn_calls(
            entries.push(other),
            turn,
            entries.len() as int,
        ),
        turn_replies(entries.push(other), turn, entries.len() + 1int) == turn_replies(
            entries.push(other),
            turn,
            entries.len() as int,
        ),
{
    lemma_first_of_turn(entries, turn, a);
}

/// The calls of a turn grow by those of each entry of it.
pub proof fn entry_adds_its_calls(entries: Seq<EntryView>, e: EntryView, turn: u64)
    requires
        e.turn == turn,
        e.role == Role::Assistant,
    ensures
        turn_calls(entries.push(e), turn, entries.len() + 1int) == turn_calls(
            entries,
            turn,
            entries.len() as int,
        ) + calls_in(e.blocks),
        turn_replies(entries.push(e), turn, entries.len() + 1int) == turn_replies(
            entries,
            turn,
            entries.len() as int,
        ) + (if replies(e.blocks) {
            1nat
        } else {
            0nat
        }),
{
    lemma_turn_taken(entries, entries.push(e), turn, entries.len() as int);
}

proof fn lemma_turn_taken(a: Seq<EntryView>, b: Seq<EntryView>, turn: u64, n: int)
    requires
        n <= a.len(),
        n <= b.len(),
        forall|i: int| 0 <= i < n ==> a[i] == b[i],
    ensures
        turn_calls(a, turn, n) == turn_calls(b, turn, n),
        turn_replies(a, turn, n) == turn_replies(b, turn, n),
    decreases n,
{
    if n > 0 {
        lemma_turn_taken(a, b, turn, n - 1);
        assert(a[n - 1] == b[n - 1]);
    }
}

/// A turn that is over and whose last answer says something and calls nothing
/// is folded to it, where work stands before it.
pub proof fn answered_turn_folds(
    entries: Seq<EntryView>,
    open: Option<u64>,
    turn: u64,
    a: int,
    work: int,
)
    requires
        open != Some(turn),
        0 <= work < a < entries.len(),
        entries[a].role == Role::Assistant && entries[a].turn == turn,
        replies(entries[a].blocks),
        forall|i: int| 0 <= i < entries[a].blocks.len() ==> !((#[trigger] entries[a].blocks[i])
            is Tool),
        forall|j: int|
            a < j < entries.len() ==> !((#[trigger] entries[j]).role == Role::Assistant
                && entries[j].turn == turn),
        entries[work].role == Role::Assistant || entries[work].role == Role::Context,
        entries[work].turn == turn,
    ensures
        fold_answer(entries, open, turn) == Some(a),
{
    last_answer_is_the_last(entries, turn, entries.len() as int);
    lemma_first_of_turn(entries, turn, a);
    lemma_calls_in(entries[a].blocks);
}

/// What a turn is folded to is an answer of it that says something and calls
/// nothing, and the turn is over.
pub proof fn fold_keeps_an_answer(entries: Seq<EntryView>, open: Option<u64>, turn: u64)
    requires
        fold_answer(entries, open, turn) is Some,
    ensures
        ({
            let a = fold_answer(entries, open, turn)->0;
            &&& open != Some(turn)
            &&& 0 < a < entries.len()
            &&& entries[a].role == Role::Assistant
            &&& entries[a].turn == turn
            &&& exists|i: int| 0 <= i < entries[a].blocks.len() && speaks(
                #[trigger] entries[a].blocks[i],
            )
            &&& forall|i: int|
                0 <= i < entries[a].blocks.len() ==> !((#[trigger] entries[a].blocks[i]) is Tool)
        }),
{
    last_answer_is_the_last(entries, turn, entries.len() as int);
    let a = fold_answer(entries, open, turn)->0;
    lemma_first_of_turn(entries, turn, a);
    lemma_calls_in(entries[a].blocks);
}

/// Delegating calls are counted one by one.
pub proof fn delegations_are_counted(calls: Seq<ToolView>)
    ensures
        delegations(calls) == calls.filter(
            |c: ToolView| c.name == "subagent"@ || text::begins(c.name, "subagent_"@),
        ).len(),
    decreases calls.len(),
{
    reveal(Seq::filter);
    if calls.len() > 0 {
        delegations_are_counted(calls.drop_last());
    }
}

} // verus!
