//! The rows of the transcript: what stands in each, and what a click on one
//! opens or closes.

use crate::chat::{BlockView, ChatEntry, ChatState, ChatView, EntryView, MsgBlock, Role, ToolView};
use crate::fold::TurnFold;
use crate::process;
use crate::text;
use std::collections::HashMap;
use vstd::prelude::*;

verus! {

broadcast use vstd::std_specs::hash::group_hash_axioms;

// ---------------------------------------------------------------------------
// rows
// ---------------------------------------------------------------------------

/// What stands in a row.
#[derive(Clone, Debug)]
pub enum ChatRow {
    /// The line that says that a turn runs.
    Status,
    Nothing,
    /// An entry that a fold hides.
    Hidden,
    /// The control of a fold, and below it the entry where the fold is open.
    Control { label: String, expanded: bool },
    /// An entry without its thoughts.
    Answer,
    Entry,
}

/// The contents of a row.
pub enum ChatRowView {
    Status,
    Nothing,
    Hidden,
    Control { label: Seq<char>, expanded: bool },
    Answer,
    Entry,
}

impl DeepView for ChatRow {
    type V = ChatRowView;

    open spec fn deep_view(&self) -> ChatRowView {
        match self {
            ChatRow::Status => ChatRowView::Status,
            ChatRow::Nothing => ChatRowView::Nothing,
            ChatRow::Hidden => ChatRowView::Hidden,
            ChatRow::Control { label, expanded } => ChatRowView::Control {
                label: label@,
                expanded: *expanded,
            },
            ChatRow::Answer => ChatRowView::Answer,
            ChatRow::Entry => ChatRowView::Entry,
        }
    }
}

/// Whether the entry at `ix` is work that a fold stands for.
pub open spec fn folded(e: EntryView, f: TurnFold, ix: int) -> bool {
    (e.role == Role::Assistant || e.role == Role::Context) && f.first_process <= ix < f.answer
}

/// The title of a fold.
pub open spec fn fold_title(f: TurnFold) -> Seq<char> {
    process::title_of(process::labels_of(f.activities@))
}

/// The row of an entry whose turn has the fold `f`.
pub open spec fn folded_row(e: EntryView, f: TurnFold, expanded: bool, ix: int) -> ChatRowView {
    if folded(e, f, ix) && ix == f.first_process {
        ChatRowView::Control { label: fold_title(f), expanded }
    } else if folded(e, f, ix) && !expanded {
        ChatRowView::Hidden
    } else if ix == f.answer && !expanded {
        ChatRowView::Answer
    } else {
        ChatRowView::Entry
    }
}

/// What stands in the row at `ix`.
pub open spec fn row_at(s: ChatState, folds: Map<u64, TurnFold>, ix: int) -> ChatRowView {
    if ix < s.entries.len() {
        let e = s.entries[ix];
        if folds.contains_key(e.turn) {
            folded_row(e, folds[e.turn], s.turn_expanded.contains(e.turn), ix)
        } else {
            ChatRowView::Entry
        }
    } else if ix == s.entries.len() && s.running {
        ChatRowView::Status
    } else {
        ChatRowView::Nothing
    }
}

impl ChatView {
    /// What stands in the row at `ix`.
    pub fn chat_row(&self, folds: &HashMap<u64, TurnFold>, ix: usize) -> (r: ChatRow)
        ensures
            r.deep_view() == row_at(self.deep_view(), folds@, ix as int),
    {
        assert(self.deep_view().entries.len() == self.entries@.len());
        if ix >= self.entries.len() {
            return if ix == self.entries.len() && self.running {
                ChatRow::Status
            } else {
                ChatRow::Nothing
            };
        }
        let e: &ChatEntry = &self.entries[ix];
        assert(self.deep_view().entries[ix as int] == e.deep_view());
        match folds.get(&e.turn) {
            Some(f) => {
                let expanded = self.turn_expanded.contains(&e.turn);
                let member = (e.role == Role::Assistant || e.role == Role::Context)
                    && f.first_process <= ix && ix < f.answer;
                if member && ix == f.first_process {
                    ChatRow::Control {
                        label: process::process_title(f.activities.as_slice()),
                        expanded,
                    }
                } else if member && !expanded {
                    ChatRow::Hidden
                } else if ix == f.answer && !expanded {
                    ChatRow::Answer
                } else {
                    ChatRow::Entry
                }
            },
            None => ChatRow::Entry,
        }
    }
}

/// The places of the parts that stay where the thoughts are left out.
pub open spec fn spoken(blocks: Seq<BlockView>) -> Seq<int>
    decreases blocks.len(),
{
    if blocks.len() == 0 {
        Seq::empty()
    } else if blocks.last() is Reasoning {
        spoken(blocks.drop_last())
    } else {
        spoken(blocks.drop_last()).push(blocks.len() - 1)
    }
}

/// Places as mathematical integers.
pub open spec fn places(v: Seq<usize>) -> Seq<int> {
    v.map_values(|i: usize| i as int)
}

/// The places of the parts that stay where the thoughts are left out.
pub fn without_thoughts(blocks: &Vec<MsgBlock>) -> (r: Vec<usize>)
    ensures
        places(r@) == spoken(blocks.deep_view()),
{
    let ghost view = blocks.deep_view();
    let mut out: Vec<usize> = Vec::new();
    let mut i: usize = 0;
    assert(places(out@) =~= spoken(view.take(0)));
    while i < blocks.len()
        invariant
            i <= blocks@.len(),
            view == blocks.deep_view(),
            places(out@) == spoken(view.take(i as int)),
        decreases blocks@.len() - i,
    {
        assert(view.take(i + 1).drop_last() =~= view.take(i as int));
        assert(view.take(i + 1).last() == blocks@[i as int].deep_view());
        let thought = match &blocks[i] {
            MsgBlock::Reasoning { .. } => true,
            _ => false,
        };
        if !thought {
            let ghost before = out@;
            out.push(i);
            assert(places(out@) =~= places(before).push(i as int));
        }
        i += 1;
    }
    assert(view.take(i as int) =~= view);
    out
}

// ---------------------------------------------------------------------------
// rows that changed
// ---------------------------------------------------------------------------

/// The rows of the range that exist, to be measured again.
pub open spec fn measured_again(s: ChatState, from: int, to: int) -> Option<(usize, usize)> {
    let end = if to < s.rows() {
        to
    } else {
        s.rows() as int
    };
    if from < end {
        Some((from as usize, end as usize))
    } else {
        None
    }
}

impl ChatView {
    fn row_count(&self) -> (r: usize)
        requires
            self.entries@.len() < usize::MAX,
        ensures
            r == self.deep_view().rows(),
    {
        assert(self.deep_view().entries.len() == self.entries@.len());
        if self.running {
            self.entries.len() + 1
        } else {
            self.entries.len()
        }
    }

    /// The rows from `from` up to `to` that exist: their heights changed.
    pub fn invalidate_chat_heights_range(&self, from: usize, to: usize) -> (r: Option<
        (usize, usize),
    >)
        requires
            self.entries@.len() < usize::MAX,
        ensures
            r == measured_again(self.deep_view(), from as int, to as int),
    {
        let n: usize = self.row_count();
        let end: usize = if to < n {
            to
        } else {
            n
        };
        if from < end {
            Some((from, end))
        } else {
            None
        }
    }

    /// The rows that grow while text streams in: the last entry and what is
    /// below it.
    pub fn invalidate_stream_tail(&self) -> (r: Option<(usize, usize)>)
        requires
            self.entries@.len() < usize::MAX,
        ensures
            r == measured_again(
                self.deep_view(),
                (if self.deep_view().entries.len() > 0 {
                    self.deep_view().entries.len() - 1
                } else {
                    0
                }),
                self.deep_view().rows() as int,
            ),
    {
        let n: usize = self.row_count();
        assert(self.deep_view().entries.len() == self.entries@.len());
        let last: usize = if self.entries.len() > 0 {
            self.entries.len() - 1
        } else {
            0
        };
        self.invalidate_chat_heights_range(last, n)
    }
}

// ---------------------------------------------------------------------------
// opening and closing
// ---------------------------------------------------------------------------

/// The transcript after the fold of a turn was opened or closed.
pub open spec fn turn_toggled(s: ChatState, turn: u64) -> ChatState {
    ChatState {
        turn_expanded: if s.turn_expanded.contains(turn) {
            s.turn_expanded.remove(turn)
        } else {
            s.turn_expanded.insert(turn)
        },
        ..s
    }
}

/// The transcript with another part at a place.
pub open spec fn with_block(s: ChatState, ei: int, bi: int, b: BlockView) -> ChatState {
    ChatState {
        entries: s.entries.update(
            ei,
            EntryView { blocks: s.entries[ei].blocks.update(bi, b), ..s.entries[ei] },
        ),
        ..s
    }
}

/// The part at a place, where there is one.
pub open spec fn block_at(s: ChatState, ei: int, bi: int) -> Option<BlockView> {
    if 0 <= ei < s.entries.len() && 0 <= bi < s.entries[ei].blocks.len() {
        Some(s.entries[ei].blocks[bi])
    } else {
        None
    }
}

/// The transcript after a thought was opened or closed.
pub open spec fn thought_toggled(s: ChatState, ei: int, bi: int) -> ChatState {
    match block_at(s, ei, bi) {
        Some(BlockView::Reasoning { text, open }) => with_block(
            s,
            ei,
            bi,
            BlockView::Reasoning { text, open: !open },
        ),
        _ => s,
    }
}

/// The transcript after the row of a call was opened or closed.
pub open spec fn tool_toggled(s: ChatState, ei: int, bi: int) -> ChatState {
    match block_at(s, ei, bi) {
        Some(BlockView::Tool(t)) => with_block(
            s,
            ei,
            bi,
            BlockView::Tool(ToolView { open: !t.open, ..t }),
        ),
        _ => s,
    }
}

/// The transcript after the card of a call was unfolded or folded.
pub open spec fn card_toggled(s: ChatState, ei: int, bi: int) -> ChatState {
    match block_at(s, ei, bi) {
        Some(BlockView::Tool(t)) => with_block(
            s,
            ei,
            bi,
            BlockView::Tool(ToolView { expanded: !t.expanded, ..t }),
        ),
        _ => s,
    }
}

/// The transcript after an entry was opened or closed.
pub open spec fn entry_toggled(s: ChatState, ei: int) -> ChatState {
    if 0 <= ei < s.entries.len() {
        ChatState {
            entries: s.entries.update(
                ei,
                EntryView { open: !s.entries[ei].open, ..s.entries[ei] },
            ),
            ..s
        }
    } else {
        s
    }
}

proof fn lemma_block_set(before: ChatState, after: ChatState, ei: int, bi: int, b: BlockView)
    requires
        0 <= ei < before.entries.len(),
        0 <= bi < before.entries[ei].blocks.len(),
        after.entries.len() == before.entries.len(),
        forall|i: int|
            0 <= i < before.entries.len() && i != ei ==> #[trigger] after.entries[i]
                == before.entries[i],
        after.entries[ei].blocks.len() == before.entries[ei].blocks.len(),
        forall|j: int|
            0 <= j < before.entries[ei].blocks.len() && j != bi
                ==> #[trigger] after.entries[ei].blocks[j] == before.entries[ei].blocks[j],
        after.entries[ei].blocks[bi] == b,
        after.entries[ei] == (EntryView {
            blocks: after.entries[ei].blocks,
            ..before.entries[ei]
        }),
        after == (ChatState { entries: after.entries, ..before }),
    ensures
        after == with_block(before, ei, bi, b),
{
    assert(after.entries[ei].blocks =~= before.entries[ei].blocks.update(bi, b));
    assert(after.entries =~= with_block(before, ei, bi, b).entries);
}

impl ChatView {
    fn tool_at(&self, ei: usize, bi: usize) -> (r: bool)
        ensures
            r == (block_at(self.deep_view(), ei as int, bi as int) matches Some(
                BlockView::Tool(_),
            )),
    {
        assert(self.deep_view().entries.len() == self.entries@.len());
        if ei >= self.entries.len() {
            return false;
        }
        assert(self.deep_view().entries[ei as int] == self.entries@[ei as int].deep_view());
        if bi >= self.entries[ei].blocks.len() {
            return false;
        }
        assert(self.deep_view().entries[ei as int].blocks[bi as int]
            == self.entries@[ei as int].blocks@[bi as int].deep_view());
        match &self.entries[ei].blocks[bi] {
            MsgBlock::Tool(_) => true,
            _ => false,
        }
    }

    fn thought_at(&self, ei: usize, bi: usize) -> (r: bool)
        ensures
            r == (block_at(self.deep_view(), ei as int, bi as int) matches Some(
                BlockView::Reasoning { .. },
            )),
    {
        assert(self.deep_view().entries.len() == self.entries@.len());
        if ei >= self.entries.len() {
            return false;
        }
        assert(self.deep_view().entries[ei as int] == self.entries@[ei as int].deep_view());
        if bi >= self.entries[ei].blocks.len() {
            return false;
        }
        assert(self.deep_view().entries[ei as int].blocks[bi as int]
            == self.entries@[ei as int].blocks@[bi as int].deep_view());
        match &self.entries[ei].blocks[bi] {
            MsgBlock::Reasoning { .. } => true,
            _ => false,
        }
    }

    /// Opens or closes the fold of a turn.
    pub fn toggle_turn(&mut self, turn: u64)
        ensures
            final(self).deep_view() == turn_toggled(old(self).deep_view(), turn),
    {
        let ghost before = self.turn_expanded@;
        if !self.turn_expanded.remove(&turn) {
            assert(before.remove(turn) =~= before);
            self.turn_expanded.insert(turn);
        }
    }

    /// Opens or closes a thought.
    pub fn toggle_reasoning(&mut self, ei: usize, bi: usize)
        ensures
            final(self).deep_view() == thought_toggled(old(self).deep_view(), ei as int, bi as int),
    {
        let ghost before = self.deep_view();
        assert(before.entries.len() == self.entries@.len());
        if self.thought_at(ei, bi) {
            assert(before.entries[ei as int] == self.entries@[ei as int].deep_view());
            assert(before.entries[ei as int].blocks[bi as int]
                == self.entries@[ei as int].blocks@[bi as int].deep_view());
            if let MsgBlock::Reasoning { open, .. } = &mut self.entries[ei].blocks[bi] {
                *open = !*open;
                proof {
                    let b = self.entries@[ei as int].blocks@[bi as int].deep_view();
                    lemma_block_set(before, self.deep_view(), ei as int, bi as int, b);
                }
            }
        }
    }

    /// Opens or closes the row of a call. Returns the place of the call that is
    /// now selected.
    pub fn toggle_tool(&mut self, ei: usize, bi: usize) -> (r: Option<(usize, usize)>)
        ensures
            final(self).deep_view() == tool_toggled(old(self).deep_view(), ei as int, bi as int),
            r == (if block_at(old(self).deep_view(), ei as int, bi as int) matches Some(
                BlockView::Tool(_),
            ) {
                Some((ei, bi))
            } else {
                None
            }),
    {
        let ghost before = self.deep_view();
        assert(before.entries.len() == self.entries@.len());
        if self.tool_at(ei, bi) {
            assert(before.entries[ei as int] == self.entries@[ei as int].deep_view());
            assert(before.entries[ei as int].blocks[bi as int]
                == self.entries@[ei as int].blocks@[bi as int].deep_view());
            if let MsgBlock::Tool(t) = &mut self.entries[ei].blocks[bi] {
                t.open = !t.open;
                proof {
                    let b = self.entries@[ei as int].blocks@[bi as int].deep_view();
                    lemma_block_set(before, self.deep_view(), ei as int, bi as int, b);
                }
                return Some((ei, bi));
            }
        }
        None
    }

    /// Unfolds or folds the card of a call. Returns the rows whose heights
    /// changed.
    pub fn toggle_card(&mut self, ei: usize, bi: usize) -> (r: Option<(usize, usize)>)
        requires
            old(self).entries@.len() < usize::MAX,
            ei < usize::MAX,
        ensures
            final(self).deep_view() == card_toggled(old(self).deep_view(), ei as int, bi as int),
            r == measured_again(old(self).deep_view(), ei as int, ei + 1),
    {
        let ghost before = self.deep_view();
        assert(before.entries.len() == self.entries@.len());
        if self.tool_at(ei, bi) {
            assert(before.entries[ei as int] == self.entries@[ei as int].deep_view());
            assert(before.entries[ei as int].blocks[bi as int]
                == self.entries@[ei as int].blocks@[bi as int].deep_view());
            if let MsgBlock::Tool(t) = &mut self.entries[ei].blocks[bi] {
                t.expanded = !t.expanded;
                proof {
                    let b = self.entries@[ei as int].blocks@[bi as int].deep_view();
                    lemma_block_set(before, self.deep_view(), ei as int, bi as int, b);
                }
            }
        }
        self.invalidate_chat_heights_range(ei, ei + 1)
    }

    /// Opens or closes an entry of context.
    pub fn toggle_entry(&mut self, ei: usize)
        ensures
            final(self).deep_view() == entry_toggled(old(self).deep_view(), ei as int),
    {
        let ghost before = self.deep_view();
        assert(before.entries.len() == self.entries@.len());
        if ei < self.entries.len() {
            let open = self.entries[ei].open;
            assert(before.entries[ei as int] == self.entries@[ei as int].deep_view());
            self.entries[ei].open = !open;
            assert(self.deep_view().entries =~= entry_toggled(before, ei as int).entries);
        }
    }
}

// ---------------------------------------------------------------------------
// groups of results
// ---------------------------------------------------------------------------

/// The collapsed groups, in ascending order, after one was collapsed or
/// opened.
pub open spec fn group_toggled(groups: Seq<usize>, g: usize) -> Seq<usize>
    decreases groups.len(),
{
    if groups.len() == 0 || groups[0] > g {
        seq![g] + groups
    } else if groups[0] == g {
        groups.drop_first()
    } else {
        seq![groups[0]] + group_toggled(groups.drop_first(), g)
    }
}

/// Whether the groups are in ascending order.
pub open spec fn ascending(groups: Seq<usize>) -> bool {
    forall|i: int, j: int| 0 <= i < j < groups.len() ==> groups[i] < groups[j]
}

proof fn lemma_group_toggled(groups: Seq<usize>, g: usize, at: int)
    requires
        0 <= at <= groups.len(),
        forall|i: int| 0 <= i < at ==> groups[i] < g,
        at < groups.len() ==> groups[at] >= g,
    ensures
        group_toggled(groups, g) == (if at < groups.len() && groups[at] == g {
            groups.remove(at)
        } else {
            groups.insert(at, g)
        }),
    decreases groups.len(),
{
    if at == 0 {
        if groups.len() > 0 && groups[0] == g {
            assert(groups.drop_first() =~= groups.remove(0));
        } else {
            assert(seq![g] + groups =~= groups.insert(0, g));
        }
    } else {
        let rest = groups.drop_first();
        lemma_group_toggled(rest, g, at - 1);
        if at < groups.len() && groups[at] == g {
            assert(seq![groups[0]] + rest.remove(at - 1) =~= groups.remove(at));
        } else {
            assert(seq![groups[0]] + rest.insert(at - 1, g) =~= groups.insert(at, g));
        }
    }
}

/// Collapses or opens a group.
pub fn toggle_group(groups: &mut Vec<usize>, g: usize)
    requires
        ascending(old(groups)@),
    ensures
        final(groups)@ == group_toggled(old(groups)@, g),
        ascending(final(groups)@),
{
    let ghost before = groups@;
    let mut at: usize = 0;
    while at < groups.len() && groups[at] < g
        invariant
            at <= groups@.len(),
            groups@ == before,
            forall|i: int| 0 <= i < at ==> before[i] < g,
        decreases groups@.len() - at,
    {
        at += 1;
    }
    proof {
        lemma_group_toggled(before, g, at as int);
    }
    if at < groups.len() && groups[at] == g {
        groups.remove(at);
    } else {
        groups.insert(at, g);
    }
}

/// Collapsing or opening a group twice changes nothing.
pub proof fn group_toggles_back(groups: Seq<usize>, g: usize)
    requires
        ascending(groups),
    ensures
        group_toggled(group_toggled(groups, g), g) == groups,
    decreases groups.len(),
{
    if groups.len() == 0 || groups[0] > g {
        assert((seq![g] + groups).drop_first() =~= groups);
    } else if groups[0] == g {
        assert(seq![g] + groups.drop_first() =~= groups);
    } else {
        let rest = groups.drop_first();
        group_toggles_back(rest, g);
        let next = seq![groups[0]] + group_toggled(rest, g);
        assert(next.drop_first() =~= group_toggled(rest, g));
        assert(seq![groups[0]] + rest =~= groups);
    }
}

// ---------------------------------------------------------------------------
// entries
// ---------------------------------------------------------------------------

/// The first text among the parts, or nothing.
pub open spec fn first_text_of(blocks: Seq<BlockView>) -> Seq<char>
    decreases blocks.len(),
{
    if blocks.len() == 0 {
        Seq::empty()
    } else {
        match blocks[0] {
            BlockView::Text(s) => s,
            _ => first_text_of(blocks.drop_first()),
        }
    }
}

/// The text of a message by the user.
pub fn first_text(blocks: &Vec<MsgBlock>) -> (r: String)
    ensures
        r@ == first_text_of(blocks.deep_view()),
{
    let ghost view = blocks.deep_view();
    let mut i: usize = 0;
    assert(view.skip(0) =~= view);
    while i < blocks.len()
        invariant
            i <= blocks@.len(),
            view == blocks.deep_view(),
            first_text_of(view.skip(i as int)) == first_text_of(view),
        decreases blocks@.len() - i,
    {
        assert(view.skip(i as int)[0] == blocks@[i as int].deep_view());
        assert(view.skip(i as int).drop_first() =~= view.skip(i + 1));
        if let MsgBlock::Text(s) = &blocks[i] {
            return s.clone();
        }
        i += 1;
    }
    String::new()
}

/// The text of an entry that is one text, or nothing.
pub open spec fn sole_text_of(blocks: Seq<BlockView>) -> Seq<char> {
    if blocks.len() > 0 {
        match blocks[0] {
            BlockView::Text(s) => s,
            _ => Seq::empty(),
        }
    } else {
        Seq::empty()
    }
}

/// The text of an error or of context.
pub fn sole_text(blocks: &Vec<MsgBlock>) -> (r: String)
    ensures
        r@ == sole_text_of(blocks.deep_view()),
{
    if blocks.len() > 0 {
        assert(blocks.deep_view()[0] == blocks@[0].deep_view());
        if let MsgBlock::Text(s) = &blocks[0] {
            return s.clone();
        }
    }
    String::new()
}

/// All text of the parts, one after the other.
pub open spec fn all_text_of(blocks: Seq<BlockView>) -> Seq<char>
    decreases blocks.len(),
{
    if blocks.len() == 0 {
        Seq::empty()
    } else {
        match blocks.last() {
            BlockView::Text(s) => all_text_of(blocks.drop_last()) + s,
            _ => all_text_of(blocks.drop_last()),
        }
    }
}

/// The text of an answer, as it is copied.
pub fn all_text(blocks: &Vec<MsgBlock>) -> (r: String)
    ensures
        r@ == all_text_of(blocks.deep_view()),
{
    let ghost view = blocks.deep_view();
    let mut out = String::new();
    let mut i: usize = 0;
    assert(out@ =~= all_text_of(view.take(0)));
    while i < blocks.len()
        invariant
            i <= blocks@.len(),
            view == blocks.deep_view(),
            out@ == all_text_of(view.take(i as int)),
        decreases blocks@.len() - i,
    {
        assert(view.take(i + 1).drop_last() =~= view.take(i as int));
        assert(view.take(i + 1).last() == blocks@[i as int].deep_view());
        if let MsgBlock::Text(s) = &blocks[i] {
            text::push_text(&mut out, s.as_str());
        }
        i += 1;
    }
    assert(view.take(i as int) =~= view);
    out
}

/// How many attachments are among the parts.
pub open spec fn attached(blocks: Seq<BlockView>) -> nat
    decreases blocks.len(),
{
    if blocks.len() == 0 {
        0
    } else if blocks.last() is FileCard || blocks.last() is ImageTile {
        attached(blocks.drop_last()) + 1
    } else {
        attached(blocks.drop_last())
    }
}

/// How many attachments are among the parts.
pub fn attachment_count(blocks: &Vec<MsgBlock>) -> (r: usize)
    ensures
        r == attached(blocks.deep_view()),
{
    let ghost view = blocks.deep_view();
    let mut n: usize = 0;
    let mut i: usize = 0;
    while i < blocks.len()
        invariant
            n <= i <= blocks@.len(),
            view == blocks.deep_view(),
            n == attached(view.take(i as int)),
        decreases blocks@.len() - i,
    {
        assert(view.take(i + 1).drop_last() =~= view.take(i as int));
        assert(view.take(i + 1).last() == blocks@[i as int].deep_view());
        if let MsgBlock::Attachment(_) = &blocks[i] {
            n += 1;
        }
        i += 1;
    }
    assert(view.take(i as int) =~= view);
    n
}

/// Whether an entry is the latest by the user.
pub open spec fn newest_user(entries: Seq<EntryView>, ei: int) -> bool {
    &&& 0 <= ei < entries.len()
    &&& entries[ei].role == Role::User
    &&& forall|i: int| ei < i < entries.len() ==> (#[trigger] entries[i]).role != Role::User
}

/// Whether text still streams into a part.
pub open spec fn streams(s: ChatState, ei: int, bi: int) -> bool {
    s.running && ei + 1 == s.entries.len() && bi + 1 == s.entries[ei].blocks.len()
}

/// What stands below an answer.
#[derive(Clone, Copy, Debug, PartialEq, Eq)]
pub struct Footer {
    pub elapsed_ns: u64,
    /// Whether it is shown without pointing at the answer.
    pub always: bool,
}

/// What stands below an entry: the footer of a finished answer whose time is
/// known.
pub open spec fn footer_of(entries: Seq<EntryView>, ei: int) -> Option<Footer> {
    let e = entries[ei];
    match e.elapsed_ns {
        Some(elapsed_ns) => if e.role == Role::Assistant && e.done {
            Some(Footer { elapsed_ns, always: entries.last().turn == e.turn })
        } else {
            None
        },
        None => None,
    }
}

impl ChatView {
    /// Whether an entry is the latest by the user.
    pub fn latest_user(&self, ei: usize) -> (r: bool)
        ensures
            r == newest_user(self.deep_view().entries, ei as int),
    {
        let ghost view = self.deep_view().entries;
        assert(view.len() == self.entries@.len());
        if ei >= self.entries.len() {
            return false;
        }
        assert(view[ei as int] == self.entries@[ei as int].deep_view());
        if self.entries[ei].role != Role::User {
            return false;
        }
        let mut n: usize = self.entries.len();
        while n > ei + 1
            invariant
                ei < n <= self.entries@.len(),
                view == self.deep_view().entries,
                view.len() == self.entries@.len(),
                forall|i: int| n <= i < view.len() ==> (#[trigger] view[i]).role != Role::User,
            decreases n,
        {
            assert(view[n - 1] == self.entries@[n - 1].deep_view());
            if self.entries[n - 1].role == Role::User {
                return false;
            }
            n -= 1;
        }
        true
    }

    /// Whether text still streams into a part.
    pub fn is_stream_tail(&self, ei: usize, bi: usize) -> (r: bool)
        requires
            ei < self.entries@.len(),
            bi < self.entries@[ei as int].blocks@.len(),
        ensures
            r == streams(self.deep_view(), ei as int, bi as int),
    {
        let ghost view = self.deep_view().entries;
        assert(view.len() == self.entries@.len());
        assert(view[ei as int] == self.entries@[ei as int].deep_view());
        self.running && ei == self.entries.len() - 1 && bi == self.entries[ei].blocks.len() - 1
    }

    /// What stands below an entry.
    pub fn entry_footer(&self, ei: usize) -> (r: Option<Footer>)
        requires
            ei < self.entries@.len(),
        ensures
            r == footer_of(self.deep_view().entries, ei as int),
    {
        let ghost view = self.deep_view().entries;
        let n: usize = self.entries.len();
        assert(view[ei as int] == self.entries@[ei as int].deep_view());
        assert(view.last() == self.entries@[n - 1].deep_view());
        let e: &ChatEntry = &self.entries[ei];
        match e.elapsed_ns {
            Some(elapsed_ns) => if e.role == Role::Assistant && e.done {
                Some(Footer { elapsed_ns, always: self.entries[n - 1].turn == e.turn })
            } else {
                None
            },
            None => None,
        }
    }

    /// How long the running turn has taken, in words, where its start is known.
    pub fn status_time(&self, now: u64) -> (r: Option<String>)
        ensures
            r.deep_view() == (match self.turn_started {
                Some(t) => Some(
                    text::dec(crate::chat::since(t, now) / 1_000_000_000) + "秒"@,
                ),
                None => None,
            }),
    {
        match self.turn_started {
            Some(t) => {
                let ns: u64 = if now >= t {
                    now - t
                } else {
                    0
                };
                let secs: String = text::decimal(ns / 1_000_000_000);
                Some(text::concat2(secs.as_str(), "秒"))
            },
            None => None,
        }
    }
}

/// What follows the last `c`.
pub open spec fn after_last(s: Seq<char>, c: char) -> Seq<char>
    decreases s.len(),
{
    if s.len() == 0 || s.last() == c {
        Seq::empty()
    } else {
        after_last(s.drop_last(), c).push(s.last())
    }
}

/// The text without the line end that closes it.
pub open spec fn unended(s: Seq<char>) -> Seq<char> {
    if s.len() > 0 && s.last() == '\n' {
        let t = s.drop_last();
        if t.len() > 0 && t.last() == '\r' {
            t.drop_last()
        } else {
            t
        }
    } else {
        s
    }
}

/// The last line of a text, and of a long line the last 120 characters.
pub open spec fn line_followed(s: Seq<char>) -> Seq<char> {
    let line = after_last(unended(s), '\n');
    if line.len() > 120 {
        line.skip(line.len() - 120)
    } else {
        line
    }
}

proof fn lemma_after_last(s: Seq<char>, c: char, from: int, to: int)
    requires
        0 <= from <= to <= s.len(),
        from > 0 ==> s[from - 1] == c,
        forall|i: int| from <= i < to ==> s[i] != c,
    ensures
        after_last(s.take(to), c) == s.subrange(from, to),
    decreases to,
{
    if to > from {
        lemma_after_last(s, c, from, to - 1);
        assert(s.take(to).drop_last() =~= s.take(to - 1));
        assert(s.subrange(from, to - 1).push(s[to - 1]) =~= s.subrange(from, to));
    } else {
        assert(s.subrange(from, to) =~= Seq::empty());
        if to > 0 {
            assert(s.take(to).last() == c);
        }
    }
}

/// What is shown of a thought while it streams in: the end of its last line.
pub fn followed_line(s: &str) -> (r: String)
    ensures
        r@ == line_followed(s@),
{
    let v: Vec<char> = text::chars_of(s);
    let mut to: usize = v.len();
    if to > 0 && v[to - 1] == '\n' {
        to -= 1;
        if to > 0 && v[to - 1] == '\r' {
            to -= 1;
        }
    }
    assert(unended(s@) =~= v@.take(to as int));
    let mut from: usize = to;
    while from > 0 && v[from - 1] != '\n'
        invariant
            from <= to <= v@.len(),
            forall|i: int| from <= i < to ==> v@[i] != '\n',
        decreases from,
    {
        from -= 1;
    }
    proof {
        lemma_after_last(v@, '\n', from as int, to as int);
    }
    let ghost line = v@.subrange(from as int, to as int);
    if to - from > 120 {
        assert(line.skip(line.len() - 120) =~= v@.subrange(to - 120, to as int));
        text::text_between(v.as_slice(), to - 120, to)
    } else {
        text::text_between(v.as_slice(), from, to)
    }
}

// ---------------------------------------------------------------------------
// laws
// ---------------------------------------------------------------------------

/// Opening or closing a fold twice changes nothing.
pub proof fn turn_toggles_back(s: ChatState, turn: u64)
    ensures
        turn_toggled(turn_toggled(s, turn), turn) == s,
{
    if s.turn_expanded.contains(turn) {
        assert(s.turn_expanded.remove(turn).insert(turn) =~= s.turn_expanded);
    } else {
        assert(s.turn_expanded.insert(turn).remove(turn) =~= s.turn_expanded);
    }
}

/// Opening or closing a part or an entry twice changes nothing.
pub proof fn parts_toggle_back(s: ChatState, ei: int, bi: int)
    ensures
        thought_toggled(thought_toggled(s, ei, bi), ei, bi) == s,
        tool_toggled(tool_toggled(s, ei, bi), ei, bi) == s,
        card_toggled(card_toggled(s, ei, bi), ei, bi) == s,
        entry_toggled(entry_toggled(s, ei), ei) == s,
{
    if 0 <= ei < s.entries.len() {
        assert(entry_toggled(entry_toggled(s, ei), ei).entries =~= s.entries);
    }
    if let Some(b) = block_at(s, ei, bi) {
        assert forall|x: BlockView| #[trigger]
            with_block(with_block(s, ei, bi, x), ei, bi, b) == s by {
            let blocks = s.entries[ei].blocks;
            assert(blocks.update(bi, x).update(bi, b) =~= blocks);
            assert(with_block(with_block(s, ei, bi, x), ei, bi, b).entries =~= s.entries);
        }
        match b {
            BlockView::Reasoning { text, open } => {
                let x = BlockView::Reasoning { text, open: !open };
                assert(with_block(with_block(s, ei, bi, x), ei, bi, b) == s);
            },
            BlockView::Tool(t) => {
                let x = BlockView::Tool(ToolView { open: !t.open, ..t });
                assert(with_block(with_block(s, ei, bi, x), ei, bi, b) == s);
                let y = BlockView::Tool(ToolView { expanded: !t.expanded, ..t });
                assert(with_block(with_block(s, ei, bi, y), ei, bi, b) == s);
            },
            _ => {},
        }
    }
}

/// A fold hides work only: its answer, every message of the user, every error
/// and every mark keep their rows.
pub proof fn folds_hide_work_only(s: ChatState, folds: Map<u64, TurnFold>, ix: int)
    requires
        0 <= ix < s.entries.len(),
    ensures
        row_at(s, folds, ix) is Hidden || row_at(s, folds, ix) is Control ==> {
            let e = s.entries[ix];
            &&& e.role == Role::Assistant || e.role == Role::Context
            &&& folds.contains_key(e.turn)
            &&& ix < folds[e.turn].answer
        },
{
}

/// An open fold hides no entry.
pub proof fn open_fold_hides_nothing(s: ChatState, folds: Map<u64, TurnFold>, ix: int)
    requires
        0 <= ix < s.entries.len(),
        s.turn_expanded.contains(s.entries[ix].turn),
    ensures
        match row_at(s, folds, ix) {
            ChatRowView::Entry => true,
            ChatRowView::Control { expanded, .. } => expanded,
            _ => false,
        },
{
}

/// A fold has one control row, which stands before its answer: the rows of the
/// turns that fold, as `is_fold` says, hold one control each.
pub proof fn one_control_for_each_fold(
    s: ChatState,
    folds: Map<u64, TurnFold>,
    turn: u64,
    answer: int,
    ix: int,
)
    requires
        folds.contains_key(turn),
        crate::fold::is_fold(s.entries, turn, answer, folds[turn]),
        0 <= answer < s.entries.len(),
        0 <= ix < s.entries.len(),
        s.entries[ix].turn == turn,
    ensures
        row_at(s, folds, ix) is Control <==> ix == folds[turn].first_process,
        folds[turn].first_process < answer,
{
    crate::fold::lemma_first_of_turn(s.entries, turn, answer);
}

/// A toggle flips its part and nothing else: a thought, a call or a card that
/// was folded is open and the other way round, and its words and results stay.
pub proof fn toggles_flip_their_part(s: ChatState, ei: int, bi: int, i: int, j: int)
    requires
        0 <= ei < s.entries.len(),
        0 <= bi < s.entries[ei].blocks.len(),
        0 <= i < s.entries.len(),
        0 <= j < s.entries[i].blocks.len(),
        i != ei || j != bi,
    ensures
        ({
            let b = s.entries[ei].blocks[bi];
            let thought = thought_toggled(s, ei, bi);
            let tool = tool_toggled(s, ei, bi);
            let card = card_toggled(s, ei, bi);
            &&& b is Reasoning ==> thought.entries[ei].blocks[bi] == (BlockView::Reasoning {
                text: b->Reasoning_text,
                open: !b->Reasoning_open,
            })
            &&& b is Tool ==> tool.entries[ei].blocks[bi] == BlockView::Tool(
                ToolView { open: !b->Tool_0.open, ..b->Tool_0 },
            )
            &&& b is Tool ==> card.entries[ei].blocks[bi] == BlockView::Tool(
                ToolView { expanded: !b->Tool_0.expanded, ..b->Tool_0 },
            )
            &&& !(b is Reasoning) ==> thought == s
            &&& !(b is Tool) ==> tool == s && card == s
            &&& thought.entries.len() == s.entries.len()
            &&& tool.entries.len() == s.entries.len()
            &&& card.entries.len() == s.entries.len()
            &&& thought.entries[i].blocks[j] == s.entries[i].blocks[j]
            &&& tool.entries[i].blocks[j] == s.entries[i].blocks[j]
            &&& card.entries[i].blocks[j] == s.entries[i].blocks[j]
            &&& entry_toggled(s, ei).entries[ei] == EntryView {
                open: !s.entries[ei].open,
                ..s.entries[ei]
            }
            &&& i != ei ==> entry_toggled(s, ei).entries[i] == s.entries[i]
        }),
{
}

/// Toggling a turn opens it or folds it, and no other; toggling a group of
/// matches folds it or opens it, and no other.
pub proof fn toggles_flip_their_turn(
    s: ChatState,
    turn: u64,
    other: u64,
    groups: Seq<usize>,
    g: usize,
    h: usize,
)
    ensures
        turn_toggled(s, turn).turn_expanded.contains(turn) <==> !s.turn_expanded.contains(turn),
        other != turn ==> (turn_toggled(s, turn).turn_expanded.contains(other)
            <==> s.turn_expanded.contains(other)),
        turn_toggled(s, turn).entries == s.entries,
        ascending(groups) ==> (group_toggled(groups, g).contains(g) <==> !groups.contains(g)),
        h != g ==> (group_toggled(groups, g).contains(h) <==> groups.contains(h)),
    decreases groups.len(),
{
    lemma_group_others(groups, g, h);
    if ascending(groups) {
        lemma_group_flips(groups, g);
    }
}

proof fn lemma_group_others(groups: Seq<usize>, g: usize, h: usize)
    ensures
        h != g ==> (group_toggled(groups, g).contains(h) <==> groups.contains(h)),
    decreases groups.len(),
{
    if h != g {
        if groups.len() == 0 || groups[0] > g {
            lemma_put_first(groups, g, h);
        } else {
            let rest = groups.drop_first();
            assert(groups =~= seq![groups[0]] + rest);
            lemma_put_first(rest, groups[0], h);
            if groups[0] != g {
                lemma_group_others(rest, g, h);
                lemma_put_first(group_toggled(rest, g), groups[0], h);
            }
        }
    }
}

proof fn lemma_put_first(rest: Seq<usize>, first: usize, h: usize)
    ensures
        (seq![first] + rest).contains(h) <==> h == first || rest.contains(h),
{
    let all = seq![first] + rest;
    assert(all[0] == first);
    if rest.contains(h) {
        let i = choose|i: int| 0 <= i < rest.len() && rest[i] == h;
        assert(all[i + 1] == h);
    }
    if all.contains(h) && h != first {
        let i = choose|i: int| 0 <= i < all.len() && all[i] == h;
        assert(rest[i - 1] == h);
    }
}

proof fn lemma_group_flips(groups: Seq<usize>, g: usize)
    requires
        ascending(groups),
    ensures
        group_toggled(groups, g).contains(g) <==> !groups.contains(g),
    decreases groups.len(),
{
    if groups.len() == 0 || groups[0] > g {
        lemma_put_first(groups, g, g);
        if groups.contains(g) {
            let i = choose|i: int| 0 <= i < groups.len() && groups[i] == g;
            assert(groups[0] <= groups[i]);
        }
    } else {
        let rest = groups.drop_first();
        assert(groups =~= seq![groups[0]] + rest);
        assert(ascending(rest)) by {
            assert forall|i: int, j: int| 0 <= i < j < rest.len() implies rest[i] < rest[j] by {
                assert(groups[i + 1] < groups[j + 1]);
            }
        }
        lemma_put_first(rest, groups[0], g);
        if groups[0] == g {
            if rest.contains(g) {
                let i = choose|i: int| 0 <= i < rest.len() && rest[i] == g;
                assert(groups[0] < groups[i + 1]);
            }
        } else {
            lemma_group_flips(rest, g);
            lemma_put_first(group_toggled(rest, g), groups[0], g);
        }
    }
}

/// The text of an entry is all its texts, one after the other; its first text
/// is the first of them; and what is attached is counted one by one.
pub proof fn text_of_an_entry_is_all_of_it(blocks: Seq<BlockView>)
    ensures
        all_text_of(blocks) == text::joined(crate::ledger::texts_in(blocks), ""@),
        attached(blocks) == blocks.filter(|b: BlockView| b is FileCard || b is ImageTile).len(),
    decreases blocks.len(),
{
    reveal(Seq::filter);
    if blocks.len() > 0 {
        text_of_an_entry_is_all_of_it(blocks.drop_last());
        if let BlockView::Text(s) = blocks.last() {
            let texts = crate::ledger::texts_in(blocks.drop_last());
            text::joining_without_a_gap(texts, seq![s]);
            assert(texts + seq![s] =~= texts.push(s));
        }
    }
}

/// The first text is that of the first part that is one.
pub proof fn first_text_is_the_first(blocks: Seq<BlockView>, i: int)
    requires
        0 <= i < blocks.len(),
        blocks[i] is Text,
        forall|j: int| 0 <= j < i ==> !((#[trigger] blocks[j]) is Text),
    ensures
        first_text_of(blocks) == blocks[i]->Text_0,
        i == 0 ==> sole_text_of(blocks) == blocks[0]->Text_0,
        i > 0 ==> sole_text_of(blocks).len() == 0,
    decreases blocks.len(),
{
    if i > 0 {
        assert(!(blocks[0] is Text));
        let rest = blocks.drop_first();
        assert forall|j: int| 0 <= j < i - 1 implies !((#[trigger] rest[j]) is Text) by {
            assert(rest[j] == blocks[j + 1]);
        }
        first_text_is_the_first(rest, i - 1);
    }
}

/// What is shown of an answer without its thoughts are all its other parts, in
/// their places.
pub proof fn only_thoughts_are_left_out(blocks: Seq<BlockView>, i: int)
    requires
        0 <= i < blocks.len(),
    ensures
        spoken(blocks).contains(i) <==> !(blocks[i] is Reasoning),
    decreases blocks.len(),
{
    let head = spoken(blocks.drop_last());
    let all = spoken(blocks);
    lemma_spoken_within(blocks.drop_last());
    if i < blocks.len() - 1 {
        only_thoughts_are_left_out(blocks.drop_last(), i);
        if head.contains(i) {
            let k = choose|k: int| 0 <= k < head.len() && head[k] == i;
            assert(all[k] == i);
        }
        if all.contains(i) {
            let k = choose|k: int| 0 <= k < all.len() && all[k] == i;
            assert(head[k] == i);
        }
    } else if !(blocks[i] is Reasoning) {
        assert(all[all.len() - 1] == i);
    } else if head.contains(i) {
        let k = choose|k: int| 0 <= k < head.len() && head[k] == i;
        assert(head[k] < blocks.len() - 1);
    }
}

proof fn lemma_spoken_within(blocks: Seq<BlockView>)
    ensures
        forall|k: int| 0 <= k < spoken(blocks).len() ==> 0 <= #[trigger] spoken(blocks)[k]
            < blocks.len(),
    decreases blocks.len(),
{
    if blocks.len() > 0 {
        let head = spoken(blocks.drop_last());
        lemma_spoken_within(blocks.drop_last());
        assert forall|k: int| 0 <= k < spoken(blocks).len() implies 0 <= #[trigger] spoken(
            blocks,
        )[k] < blocks.len() by {
            if k < head.len() {
                assert(spoken(blocks)[k] == head[k]);
            }
        }
    }
}

/// A turn that is not folded shows every entry; a running turn has a line of
/// its own behind the last entry.
pub proof fn unfolded_turn_shows_its_entries(s: ChatState, folds: Map<u64, TurnFold>, ix: int)
    ensures
        0 <= ix < s.entries.len() && !folds.contains_key(s.entries[ix].turn) ==> row_at(
            s,
            folds,
            ix,
        ) is Entry,
        0 <= ix < s.entries.len() && (s.entries[ix].role == Role::User || s.entries[ix].role
            == Role::Error) && (folds.contains_key(s.entries[ix].turn)
            ==> folds[s.entries[ix].turn].answer != ix) ==> row_at(s, folds, ix) is Entry,
        row_at(s, folds, s.entries.len() as int) is Status <==> s.running,
        ix > s.entries.len() ==> row_at(s, folds, ix) is Nothing,
{
}

/// The control of a fold names what was done: the labels of its activities.
pub proof fn control_names_what_was_done(f: TurnFold, k: int)
    requires
        0 <= k < f.activities@.len(),
        f.activities@.len() != 2,
    ensures
        text::holds_text(fold_title(f), process::done_text(f.activities@[k].0)),
{
    process::title_names_every_activity(process::labels_of(f.activities@), k);
}

/// The footer of an answer says how long its turn took, once it is done, and
/// stays in view for the latest turn.
pub proof fn footer_says_how_long(entries: Seq<EntryView>, ei: int)
    requires
        0 <= ei < entries.len(),
    ensures
        footer_of(entries, ei) is Some <==> entries[ei].role == Role::Assistant && entries[ei].done
            && entries[ei].elapsed_ns is Some,
        footer_of(entries, ei) matches Some(f) ==> Some(f.elapsed_ns) == entries[ei].elapsed_ns && (
        f.always <==> entries[ei].turn == entries.last().turn),
{
}

/// The line that is followed is the end of the text and holds no line break; a
/// long line is followed at its end.
pub proof fn followed_line_is_the_last(s: Seq<char>)
    ensures
        !line_followed(s).contains('\n'),
        line_followed(s).len() <= 120,
        text::finishes(unended(s), line_followed(s)),
        s.len() > 0 && s.last() != '\n' && !s.contains('\n') && s.len() <= 120 ==> line_followed(s)
            == s,
{
    let t = unended(s);
    lemma_tail_of(t, '\n');
    let line = after_last(t, '\n');
    let r = line_followed(s);
    assert(t.skip(t.len() - r.len()) =~= r);
    assert forall|i: int| 0 <= i < r.len() implies r[i] != '\n' by {
        if line.len() > 120 {
            assert(r[i] == line[line.len() - 120 + i]);
        }
    }
    if s.len() > 0 && s.last() != '\n' && !s.contains('\n') {
        lemma_no_break(s, '\n');
    }
}

proof fn lemma_tail_of(s: Seq<char>, c: char)
    ensures
        after_last(s, c).len() <= s.len(),
        after_last(s, c) == s.skip(s.len() - after_last(s, c).len()),
        forall|i: int| 0 <= i < after_last(s, c).len() ==> #[trigger] after_last(s, c)[i] != c,
    decreases s.len(),
{
    if s.len() > 0 && s.last() != c {
        lemma_tail_of(s.drop_last(), c);
        let n = after_last(s, c).len();
        assert(after_last(s, c) =~= s.skip(s.len() - n));
    } else {
        assert(s.skip(s.len() as int) =~= Seq::<char>::empty());
    }
}

proof fn lemma_no_break(s: Seq<char>, c: char)
    requires
        !s.contains(c),
    ensures
        after_last(s, c) == s,
    decreases s.len(),
{
    if s.len() > 0 {
        let head = s.drop_last();
        assert forall|i: int| 0 <= i < head.len() implies head[i] != c by {
            assert(head[i] == s[i]);
        }
        assert(s.contains(s.last()));
        lemma_no_break(head, c);
        assert(head.push(s.last()) =~= s);
    }
}

} // verus!
