//! The ledger of a session: a cell for each message and each tool call, what
//! of it is searched and folded, and the rail of turns beside the transcript.

use crate::chat::{BlockView, ChatEntry, EntryView, MsgBlock, Role, ToolView};
use crate::fold;
use crate::text;
use crate::traj::{ToolBlock, TrajCell, TrajKind, TrajRow};
use crate::traj;
use std::collections::HashSet;
use vstd::prelude::*;

verus! {

broadcast use vstd::std_specs::hash::group_hash_axioms;

// ---------------------------------------------------------------------------
// cells
// ---------------------------------------------------------------------------

/// The contents of a cell.
pub struct CellView {
    pub turn: u64,
    pub kind: TrajKind,
    pub index: nat,
    pub text: Seq<char>,
    pub dim: bool,
    pub step: Option<u64>,
    pub detail_text: Seq<char>,
    pub reasoning: Option<Seq<char>>,
    pub metrics: Option<(u64, u64, Option<u64>)>,
    pub time_ms: Option<u64>,
    pub tool: Option<ToolView>,
}

impl DeepView for TrajCell {
    type V = CellView;

    open spec fn deep_view(&self) -> CellView {
        CellView {
            turn: self.turn,
            kind: self.kind,
            index: self.index as nat,
            text: self.text@,
            dim: self.dim,
            step: self.step,
            detail_text: self.detail_text@,
            reasoning: self.reasoning.deep_view(),
            metrics: self.metrics,
            time_ms: self.time_ms,
            tool: self.tool.deep_view(),
        }
    }
}

/// The texts among the parts.
pub open spec fn texts_in(blocks: Seq<BlockView>) -> Seq<Seq<char>>
    decreases blocks.len(),
{
    if blocks.len() == 0 {
        Seq::empty()
    } else {
        match blocks.last() {
            BlockView::Text(s) => texts_in(blocks.drop_last()).push(s),
            _ => texts_in(blocks.drop_last()),
        }
    }
}

/// The thoughts among the parts.
pub open spec fn thoughts_in(blocks: Seq<BlockView>) -> Seq<Seq<char>>
    decreases blocks.len(),
{
    if blocks.len() == 0 {
        Seq::empty()
    } else {
        match blocks.last() {
            BlockView::Reasoning { text, .. } => thoughts_in(blocks.drop_last()).push(text),
            _ => thoughts_in(blocks.drop_last()),
        }
    }
}

/// A text on one line.
pub open spec fn one_line(s: Seq<char>) -> Seq<char> {
    s.map_values(
        |c: char|
            if c == '\n' {
                ' '
            } else {
                c
            },
    )
}

/// Texts on one line, a space between each two.
pub open spec fn in_line(parts: Seq<Seq<char>>) -> Seq<char> {
    text::joined(parts.map_values(|s: Seq<char>| one_line(s)), " "@)
}

/// Texts as they are, an empty line between each two.
pub open spec fn in_full(parts: Seq<Seq<char>>) -> Seq<char> {
    text::joined(parts, "\n\n"@)
}

/// Whether a text is blank.
pub open spec fn blank(s: Seq<char>) -> bool {
    text::trimmed(s).len() == 0
}

/// The cell of a message that is not an answer, as number `index`.
pub open spec fn user_cell(e: EntryView, index: nat) -> CellView {
    CellView {
        turn: e.turn,
        kind: TrajKind::User,
        index,
        text: in_line(texts_in(e.blocks)),
        dim: false,
        step: None,
        detail_text: in_full(texts_in(e.blocks)),
        reasoning: None,
        metrics: None,
        time_ms: None,
        tool: None,
    }
}

/// What a cell of an answer says: its text, else its thoughts, else that it
/// calls tools only.
pub open spec fn answer_text(blocks: Seq<BlockView>) -> (Seq<char>, bool) {
    if !blank(in_line(texts_in(blocks))) {
        (in_line(texts_in(blocks)), false)
    } else if !blank(in_line(thoughts_in(blocks))) {
        (in_line(thoughts_in(blocks)), false)
    } else if fold::calls_in(blocks).len() > 0 {
        ("仅工具调用"@, true)
    } else {
        (in_line(texts_in(blocks)), false)
    }
}

/// The token figures of an answer.
pub open spec fn answer_metrics(e: EntryView) -> Option<(nat, nat, Option<nat>)> {
    match e.usage {
        Some(u) => Some((u.input_tokens, u.output_tokens, u.reasoning)),
        None => None,
    }
}

/// Token figures as numbers.
pub open spec fn figures(m: Option<(u64, u64, Option<u64>)>) -> Option<(nat, nat, Option<nat>)> {
    match m {
        Some(m) => Some((m.0 as nat, m.1 as nat, crate::usage::count_of(m.2))),
        None => None,
    }
}

/// Whether `c` is the cell of an answer, as number `index`.
pub open spec fn is_answer_cell(e: EntryView, index: nat, c: CellView) -> bool {
    &&& figures(c.metrics) == answer_metrics(e)
    &&& c == CellView {
        turn: e.turn,
        kind: TrajKind::Message,
        index,
        text: answer_text(e.blocks).0,
        dim: answer_text(e.blocks).1,
        step: e.step,
        detail_text: in_full(texts_in(e.blocks)),
        reasoning: if blank(in_full(thoughts_in(e.blocks))) {
            None
        } else {
            Some(in_full(thoughts_in(e.blocks)))
        },
        metrics: c.metrics,
        time_ms: e.step_duration_ms,
        tool: None,
    }
}

/// The cell of a tool call, as number `index`.
pub open spec fn tool_cell(turn: u64, t: ToolView, index: nat, label: Seq<char>) -> CellView {
    CellView {
        turn,
        kind: TrajKind::Tool,
        index,
        text: label,
        dim: false,
        step: None,
        detail_text: Seq::empty(),
        reasoning: None,
        metrics: None,
        time_ms: t.duration_ms,
        tool: Some(t),
    }
}

/// Whether an entry is an answer or an error.
pub open spec fn answers(e: EntryView) -> bool {
    e.role == Role::Assistant || e.role == Role::Error
}

/// How many cells an entry has.
pub open spec fn cell_count(e: EntryView) -> nat {
    if answers(e) {
        1 + fold::calls_in(e.blocks).len()
    } else if blank(in_line(texts_in(e.blocks))) {
        0
    } else {
        1
    }
}

/// How many cells the first `n` entries have.
pub open spec fn cells_before(entries: Seq<EntryView>, n: int) -> nat
    decreases n,
{
    if n <= 0 {
        0
    } else {
        cells_before(entries, n - 1) + cell_count(entries[n - 1])
    }
}

/// How many tool cells the first `n` entries have.
pub open spec fn calls_before(entries: Seq<EntryView>, n: int) -> nat
    decreases n,
{
    if n <= 0 {
        0
    } else if answers(entries[n - 1]) {
        calls_before(entries, n - 1) + fold::calls_in(entries[n - 1].blocks).len()
    } else {
        calls_before(entries, n - 1)
    }
}

/// Whether the cells from `at` on are those of an entry, whose tool calls have
/// the labels from `label` on.
pub open spec fn are_cells_of(
    e: EntryView,
    cells: Seq<CellView>,
    at: int,
    labels: Seq<Seq<char>>,
    label: int,
) -> bool {
    if answers(e) {
        &&& is_answer_cell(e, (at + 1) as nat, cells[at])
        &&& forall|k: int|
            0 <= k < fold::calls_in(e.blocks).len() ==> #[trigger] cells[at + 1 + k] == tool_cell(
                e.turn,
                fold::calls_in(e.blocks)[k],
                (at + 2 + k) as nat,
                labels[label + k],
            )
    } else {
        blank(in_line(texts_in(e.blocks))) || cells[at] == user_cell(e, (at + 1) as nat)
    }
}

/// Whether the cells of the entry at `i` stand where they belong.
pub open spec fn cells_stand(
    entries: Seq<EntryView>,
    labels: Seq<Seq<char>>,
    cells: Seq<CellView>,
    i: int,
) -> bool {
    are_cells_of(
        entries[i],
        cells,
        cells_before(entries, i) as int,
        labels,
        calls_before(entries, i) as int,
    )
}

/// Whether `cells` is the ledger of the first `n` entries: the cells of each,
/// in order. The labels are those of the tool calls, in order.
pub open spec fn is_ledger(
    entries: Seq<EntryView>,
    n: int,
    labels: Seq<Seq<char>>,
    cells: Seq<CellView>,
) -> bool {
    &&& cells.len() == cells_before(entries, n)
    &&& forall|i: int| 0 <= i < n ==> #[trigger] cells_stand(entries, labels, cells, i)
}

fn text_parts(blocks: &Vec<MsgBlock>) -> (r: Vec<String>)
    ensures
        r.deep_view() == texts_in(blocks.deep_view()),
{
    let ghost view = blocks.deep_view();
    let mut out: Vec<String> = Vec::new();
    let mut i: usize = 0;
    assert(out.deep_view() =~= texts_in(view.take(0)));
    while i < blocks.len()
        invariant
            i <= blocks@.len(),
            view == blocks.deep_view(),
            out.deep_view() == texts_in(view.take(i as int)),
        decreases blocks@.len() - i,
    {
        assert(view.take(i + 1).drop_last() =~= view.take(i as int));
        assert(view.take(i + 1).last() == blocks@[i as int].deep_view());
        if let MsgBlock::Text(s) = &blocks[i] {
            let ghost before = out.deep_view();
            out.push(s.clone());
            assert(out.deep_view() =~= before.push(s@));
        }
        i += 1;
    }
    assert(view.take(i as int) =~= view);
    out
}

fn thought_parts(blocks: &Vec<MsgBlock>) -> (r: Vec<String>)
    ensures
        r.deep_view() == thoughts_in(blocks.deep_view()),
{
    let ghost view = blocks.deep_view();
    let mut out: Vec<String> = Vec::new();
    let mut i: usize = 0;
    assert(out.deep_view() =~= thoughts_in(view.take(0)));
    while i < blocks.len()
        invariant
            i <= blocks@.len(),
            view == blocks.deep_view(),
            out.deep_view() == thoughts_in(view.take(i as int)),
        decreases blocks@.len() - i,
    {
        assert(view.take(i + 1).drop_last() =~= view.take(i as int));
        assert(view.take(i + 1).last() == blocks@[i as int].deep_view());
        if let MsgBlock::Reasoning { text, .. } = &blocks[i] {
            let ghost before = out.deep_view();
            out.push(text.clone());
            assert(out.deep_view() =~= before.push(text@));
        }
        i += 1;
    }
    assert(view.take(i as int) =~= view);
    out
}

fn on_one_line(s: &str) -> (r: String)
    ensures
        r@ == one_line(s@),
{
    let v: Vec<char> = text::chars_of(s);
    let mut out = String::new();
    let mut i: usize = 0;
    assert(out@ =~= one_line(s@.take(0)));
    while i < v.len()
        invariant
            i <= v@.len(),
            v@ == s@,
            out@ == one_line(s@.take(i as int)),
        decreases v@.len() - i,
    {
        let c = if v[i] == '\n' {
            ' '
        } else {
            v[i]
        };
        out.push(c);
        assert(one_line(s@.take(i + 1)) =~= one_line(s@.take(i as int)).push(c));
        i += 1;
    }
    assert(s@.take(i as int) =~= s@);
    out
}

fn join_in_line(parts: &Vec<String>) -> (r: String)
    ensures
        r@ == in_line(parts.deep_view()),
{
    let ghost view = parts.deep_view();
    let ghost lined = view.map_values(|s: Seq<char>| one_line(s));
    let mut lines: Vec<String> = Vec::new();
    let mut i: usize = 0;
    assert(lines.deep_view() =~= lined.take(0));
    while i < parts.len()
        invariant
            i <= parts@.len(),
            view == parts.deep_view(),
            lined == view.map_values(|s: Seq<char>| one_line(s)),
            lines.deep_view() == lined.take(i as int),
        decreases parts@.len() - i,
    {
        let ghost before = lines.deep_view();
        let line = on_one_line(parts[i].as_str());
        lines.push(line);
        assert(lines.deep_view() =~= before.push(line@));
        assert(view[i as int] == parts@[i as int]@);
        assert(lined.take(i + 1) =~= lined.take(i as int).push(lined[i as int]));
        i += 1;
    }
    assert(lined.take(i as int) =~= lined);
    text::join(&lines, " ")
}

fn copy_tool(t: &ToolBlock) -> (r: ToolBlock)
    ensures
        r.deep_view() == t.deep_view(),
{
    let result = match &t.result {
        Some(s) => Some(s.clone()),
        None => None,
    };
    let mut collapsed_groups: Vec<usize> = Vec::new();
    let mut i: usize = 0;
    while i < t.collapsed_groups.len()
        invariant
            i <= t.collapsed_groups@.len(),
            collapsed_groups@ == t.collapsed_groups@.take(i as int),
        decreases t.collapsed_groups@.len() - i,
    {
        collapsed_groups.push(t.collapsed_groups[i]);
        assert(collapsed_groups@ =~= t.collapsed_groups@.take(i + 1));
        i += 1;
    }
    assert(t.collapsed_groups@.take(i as int) =~= t.collapsed_groups@);
    ToolBlock {
        id: t.id.clone(),
        name: t.name.clone(),
        arguments: t.arguments.clone(),
        result,
        error: t.error,
        open: t.open,
        expanded: t.expanded,
        collapsed_groups,
        duration_ms: t.duration_ms,
    }
}

fn make_user_cell(e: &ChatEntry, index: usize) -> (r: Option<TrajCell>)
    ensures
        match r {
            Some(c) => !blank(in_line(texts_in(e.blocks.deep_view()))) && c.deep_view()
                == user_cell(e.deep_view(), index as nat),
            None => blank(in_line(texts_in(e.blocks.deep_view()))),
        },
{
    let parts = text_parts(&e.blocks);
    let line = join_in_line(&parts);
    if text::is_blank(line.as_str()) {
        return None;
    }
    Some(
        TrajCell {
            turn: e.turn,
            kind: TrajKind::User,
            index,
            text: line,
            dim: false,
            step: None,
            detail_text: text::join(&parts, "\n\n"),
            reasoning: None,
            metrics: None,
            time_ms: None,
            tool: None,
        },
    )
}

fn answer_line(blocks: &Vec<MsgBlock>, parts: &Vec<String>, thoughts: &Vec<String>) -> (r: (
    String,
    bool,
))
    requires
        parts.deep_view() == texts_in(blocks.deep_view()),
        thoughts.deep_view() == thoughts_in(blocks.deep_view()),
    ensures
        r.0@ == answer_text(blocks.deep_view()).0,
        r.1 == answer_text(blocks.deep_view()).1,
{
    let line = join_in_line(parts);
    if !text::is_blank(line.as_str()) {
        return (line, false);
    }
    let thought = join_in_line(thoughts);
    if !text::is_blank(thought.as_str()) {
        return (thought, false);
    }
    if fold::has_call(blocks) {
        return ("仅工具调用".to_string(), true);
    }
    (line, false)
}

fn make_answer_cell(e: &ChatEntry, index: usize) -> (r: TrajCell)
    ensures
        is_answer_cell(e.deep_view(), index as nat, r.deep_view()),
{
    let parts = text_parts(&e.blocks);
    let thoughts = thought_parts(&e.blocks);
    let (line, dim) = answer_line(&e.blocks, &parts, &thoughts);
    let thought = text::join(&thoughts, "\n\n");
    let reasoning = if text::is_blank(thought.as_str()) {
        None
    } else {
        Some(thought)
    };
    let metrics = match &e.usage {
        Some(u) => Some((u.input_tokens, u.output_tokens, u.reasoning)),
        None => None,
    };
    TrajCell {
        turn: e.turn,
        kind: TrajKind::Message,
        index,
        text: line,
        dim,
        step: e.step,
        detail_text: text::join(&parts, "\n\n"),
        reasoning,
        metrics,
        time_ms: e.step_duration_ms,
        tool: None,
    }
}

fn make_tool_cell(turn: u64, t: &ToolBlock, index: usize, label: &String) -> (r: TrajCell)
    ensures
        r.deep_view() == tool_cell(turn, t.deep_view(), index as nat, label@),
{
    TrajCell {
        turn,
        kind: TrajKind::Tool,
        index,
        text: label.clone(),
        dim: false,
        step: None,
        detail_text: String::new(),
        reasoning: None,
        metrics: None,
        time_ms: t.duration_ms,
        tool: Some(copy_tool(t)),
    }
}

/// Adds the cells of the tool calls of an entry.
fn add_tool_cells(cells: &mut Vec<TrajCell>, e: &ChatEntry, labels: &Vec<String>, label: usize)
    requires
        label + fold::calls_in(e.blocks.deep_view()).len() <= labels@.len(),
        old(cells)@.len() + fold::calls_in(e.blocks.deep_view()).len() < usize::MAX,
    ensures
        ({
            let calls = fold::calls_in(e.blocks.deep_view());
            let n = old(cells)@.len();
            &&& final(cells)@.len() == n + calls.len()
            &&& forall|i: int|
                0 <= i < n ==> #[trigger] final(cells).deep_view()[i] == old(
                    cells,
                ).deep_view()[i]
            &&& forall|k: int|
                0 <= k < calls.len() ==> #[trigger] final(cells).deep_view()[n + k] == tool_cell(
                    e.turn,
                    calls[k],
                    (n + 1 + k) as nat,
                    labels.deep_view()[label + k],
                )
        }),
{
    let ghost view = e.blocks.deep_view();
    let ghost calls = fold::calls_in(view);
    let ghost n = cells@.len();
    let ghost start = cells.deep_view();
    let mut i: usize = 0;
    let mut k: usize = 0;
    assert(fold::calls_in(view.take(0)) =~= Seq::empty());
    while i < e.blocks.len()
        invariant
            i <= e.blocks@.len(),
            view == e.blocks.deep_view(),
            calls == fold::calls_in(view),
            k == fold::calls_in(view.take(i as int)).len(),
            label + calls.len() <= labels@.len(),
            n + calls.len() < usize::MAX,
            cells@.len() == n + k,
            n == start.len(),
            forall|j: int| 0 <= j < n ==> #[trigger] cells.deep_view()[j] == start[j],
            forall|j: int|
                0 <= j < k ==> #[trigger] cells.deep_view()[n + j] == tool_cell(
                    e.turn,
                    fold::calls_in(view.take(i as int))[j],
                    (n + 1 + j) as nat,
                    labels.deep_view()[label + j],
                ),
        decreases e.blocks@.len() - i,
    {
        assert(view.take(i + 1).drop_last() =~= view.take(i as int));
        assert(view.take(i + 1).last() == e.blocks@[i as int].deep_view());
        proof {
            fold::lemma_calls_taken(view, i + 1);
        }
        if let MsgBlock::Tool(t) = &e.blocks[i] {
            let ghost before = cells.deep_view();
            let index: usize = cells.len() + 1;
            let named: usize = labels.len();
            assert(label + k < named);
            let cell = make_tool_cell(e.turn, t, index, &labels[label + k]);
            cells.push(cell);
            assert(cells.deep_view() =~= before.push(cell.deep_view()));
            k += 1;
        }
        i += 1;
    }
    assert(view.take(i as int) =~= view);
}

proof fn lemma_before_grows(entries: Seq<EntryView>, i: int, n: int)
    requires
        0 <= i <= n,
    ensures
        cells_before(entries, i) <= cells_before(entries, n),
        calls_before(entries, i) <= calls_before(entries, n),
    decreases n,
{
    if i < n {
        lemma_before_grows(entries, i, n - 1);
    }
}

proof fn lemma_cells_kept(
    e: EntryView,
    cells: Seq<CellView>,
    more: Seq<CellView>,
    at: int,
    labels: Seq<Seq<char>>,
    label: int,
)
    requires
        are_cells_of(e, cells, at, labels, label),
        0 <= at,
        at + cell_count(e) <= cells.len() <= more.len(),
        forall|j: int| 0 <= j < cells.len() ==> #[trigger] more[j] == cells[j],
    ensures
        are_cells_of(e, more, at, labels, label),
{
    if answers(e) {
        assert(more[at] == cells[at]);
        assert forall|k: int| 0 <= k < fold::calls_in(e.blocks).len() implies #[trigger] more[at + 1
            + k] == tool_cell(
            e.turn,
            fold::calls_in(e.blocks)[k],
            (at + 2 + k) as nat,
            labels[label + k],
        ) by {
            assert(more[at + 1 + k] == cells[at + 1 + k]);
        }
    } else if !blank(in_line(texts_in(e.blocks))) {
        assert(more[at] == cells[at]);
    }
}

/// Adds the cells of an entry.
fn add_cells(cells: &mut Vec<TrajCell>, e: &ChatEntry, labels: &Vec<String>, label: usize)
    requires
        answers(e.deep_view()) ==> label + fold::calls_in(e.blocks.deep_view()).len()
            <= labels@.len(),
        old(cells)@.len() + cell_count(e.deep_view()) < usize::MAX,
    ensures
        final(cells)@.len() == old(cells)@.len() + cell_count(e.deep_view()),
        forall|i: int|
            0 <= i < old(cells)@.len() ==> #[trigger] final(cells).deep_view()[i] == old(
                cells,
            ).deep_view()[i],
        are_cells_of(
            e.deep_view(),
            final(cells).deep_view(),
            old(cells)@.len() as int,
            labels.deep_view(),
            label as int,
        ),
{
    let ghost start = cells.deep_view();
    let ghost n = cells@.len();
    let index: usize = cells.len() + 1;
    if e.role == Role::Assistant || e.role == Role::Error {
        let cell = make_answer_cell(e, index);
        cells.push(cell);
        let ghost one = cells.deep_view();
        assert(one =~= start.push(cell.deep_view()));
        add_tool_cells(cells, e, labels, label);
        proof {
            assert(cells.deep_view()[n as int] == one[n as int]);
            assert forall|i: int| 0 <= i < n implies #[trigger] cells.deep_view()[i] == start[i] by {
                assert(cells.deep_view()[i] == one[i]);
            }
        }
    } else {
        match make_user_cell(e, index) {
            Some(cell) => {
                cells.push(cell);
                assert(cells.deep_view() =~= start.push(cell.deep_view()));
            },
            None => {},
        }
    }
}

/// The ledger: a cell for each message that says something, for each answer,
/// and for each tool call, with its label.
pub fn traj_cells(entries: &Vec<ChatEntry>, labels: &Vec<String>) -> (r: Vec<TrajCell>)
    requires
        labels@.len() >= calls_before(entries.deep_view(), entries@.len() as int),
        cells_before(entries.deep_view(), entries@.len() as int) < usize::MAX,
    ensures
        is_ledger(
            entries.deep_view(),
            entries@.len() as int,
            labels.deep_view(),
            r.deep_view(),
        ),
{
    let ghost view = entries.deep_view();
    let ghost names = labels.deep_view();
    let mut cells: Vec<TrajCell> = Vec::new();
    let mut label: usize = 0;
    let mut i: usize = 0;
    while i < entries.len()
        invariant
            i <= entries@.len(),
            view == entries.deep_view(),
            view.len() == entries@.len(),
            names == labels.deep_view(),
            labels@.len() >= calls_before(view, entries@.len() as int),
            cells_before(view, entries@.len() as int) < usize::MAX,
            label == calls_before(view, i as int),
            is_ledger(view, i as int, names, cells.deep_view()),
        decreases entries@.len() - i,
    {
        let ghost before = cells.deep_view();
        let e: &ChatEntry = &entries[i];
        assert(view[i as int] == e.deep_view());
        proof {
            lemma_before_grows(view, i + 1, entries@.len() as int);
        }
        add_cells(&mut cells, e, labels, label);
        proof {
            let now = cells.deep_view();
            assert forall|j: int| 0 <= j < i + 1 implies #[trigger] cells_stand(
                view,
                names,
                now,
                j,
            ) by {
                if j < i {
                    assert(cells_stand(view, names, before, j));
                    lemma_before_grows(view, j + 1, i as int);
                    lemma_cells_kept(
                        view[j],
                        before,
                        now,
                        cells_before(view, j) as int,
                        names,
                        calls_before(view, j) as int,
                    );
                }
            }
        }
        if e.role == Role::Assistant || e.role == Role::Error {
            let named: usize = labels.len();
            let calls: usize = fold::count_calls(&e.blocks);
            assert(label + calls <= named);
            label = label + calls;
        }
        i += 1;
    }
    cells
}

// ---------------------------------------------------------------------------
// search
// ---------------------------------------------------------------------------

/// What is searched for, from what was typed.
pub fn search_query(typed: &str) -> (r: String)
    ensures
        r@ == text::lowercased(text::trimmed(typed@)),
{
    let t = text::trim(typed);
    text::lower_case(t.as_str())
}

/// Whether a cell is found.
pub open spec fn found(c: TrajCell, query: Seq<char>) -> bool {
    text::holds_text(text::lowercased(c.text@), query)
}

/// The cells that are found; all of them where nothing is searched for.
pub open spec fn visible(cells: Seq<TrajCell>, query: Seq<char>) -> Seq<TrajCell> {
    if query.len() == 0 {
        cells
    } else {
        cells.filter(|c: TrajCell| found(c, query))
    }
}

/// Keeps the cells that are found.
pub fn traj_visible_cells(cells: Vec<TrajCell>, query: &str) -> (r: Vec<TrajCell>)
    ensures
        r@ == visible(cells@, query@),
{
    if text::char_count(query) == 0 {
        return cells;
    }
    let ghost all = cells@;
    let ghost keep = |c: TrajCell| found(c, query@);
    let mut out: Vec<TrajCell> = Vec::new();
    assert(all.take(0).filter(keep) =~= Seq::empty());
    for c in it: cells
        invariant
            it.seq() == all,
            keep == (|c: TrajCell| found(c, query@)),
            out@ == all.take(it.index() as int).filter(keep),
    {
        let ghost k = it.index() as int;
        let ghost step = all.take(k + 1);
        assert(step.drop_last() =~= all.take(k));
        assert(step.last() == c);
        reveal(Seq::filter);
        let lowered = text::lower_case(c.text.as_str());
        if text::contains_text(lowered.as_str(), query) {
            out.push(c);
        }
    }
    assert(all.take(all.len() as int) =~= all);
    out
}

// ---------------------------------------------------------------------------
// folding
// ---------------------------------------------------------------------------

/// Whether two cells at least are of a turn.
pub open spec fn turn_folds(cells: Seq<TrajCell>, turn: u64) -> bool {
    exists|i: int, j: int|
        0 <= i < j < cells.len() && (#[trigger] cells[i]).turn == turn && (
        #[trigger] cells[j]).turn == turn
}

/// Whether the cell at `i` is an answer with tool calls behind it.
pub open spec fn has_calls_behind(cells: Seq<TrajCell>, i: int) -> bool {
    &&& 0 <= i
    &&& i + 1 < cells.len()
    &&& cells[i].kind == TrajKind::Message
    &&& cells[i + 1].kind == TrajKind::Tool
}

/// Whether a number is that of an answer with tool calls behind it.
pub open spec fn call_folds(cells: Seq<TrajCell>, index: usize) -> bool {
    exists|i: int| #[trigger] has_calls_behind(cells, i) && cells[i].index == index
}

/// The turns that can be folded.
pub fn traj_collapsible_turns(cells: &[TrajCell]) -> (r: HashSet<u64>)
    ensures
        forall|t: u64| #[trigger] r@.contains(t) <==> turn_folds(cells@, t),
{
    let mut seen: HashSet<u64> = HashSet::new();
    let mut out: HashSet<u64> = HashSet::new();
    let mut i: usize = 0;
    while i < cells.len()
        invariant
            i <= cells@.len(),
            forall|j: int| 0 <= j < i ==> seen@.contains((#[trigger] cells@[j]).turn),
            forall|t: u64| #[trigger]
                seen@.contains(t) ==> exists|j: int| 0 <= j < i && (#[trigger] cells@[j]).turn == t,
            forall|t: u64| #[trigger] out@.contains(t) ==> turn_folds(cells@, t),
            forall|a: int, b: int|
                0 <= a < b < i && (#[trigger] cells@[a]).turn == (#[trigger] cells@[b]).turn
                    ==> out@.contains(cells@[a].turn),
        decreases cells@.len() - i,
    {
        let turn: u64 = cells[i].turn;
        if seen.contains(&turn) {
            assert(turn_folds(cells@, turn)) by {
                let j = choose|j: int| 0 <= j < i && (#[trigger] cells@[j]).turn == turn;
                assert(cells@[j].turn == turn && cells@[i as int].turn == turn);
            }
            out.insert(turn);
        } else {
            seen.insert(turn);
        }
        i += 1;
    }
    out
}

/// The numbers of the answers whose tool calls can be folded.
pub fn traj_collapsible_assistants(cells: &[TrajCell]) -> (r: HashSet<usize>)
    ensures
        forall|x: usize| #[trigger] r@.contains(x) <==> call_folds(cells@, x),
{
    let mut out: HashSet<usize> = HashSet::new();
    let mut i: usize = 0;
    while i < cells.len()
        invariant
            i <= cells@.len(),
            forall|x: usize| #[trigger] out@.contains(x) ==> call_folds(cells@, x),
            forall|j: int|
                0 <= j < i && #[trigger] has_calls_behind(cells@, j) ==> out@.contains(
                    cells@[j].index,
                ),
        decreases cells@.len() - i,
    {
        if cells.len() - i > 1 && cells[i].kind == TrajKind::Message && cells[i + 1].kind
            == TrajKind::Tool {
            assert(has_calls_behind(cells@, i as int));
            out.insert(cells[i].index);
        }
        i += 1;
    }
    out
}

/// What of the ledger is folded, and how its time strip is drawn.
pub struct Ledger {
    pub collapsed_turns: HashSet<u64>,
    pub collapsed_assistants: HashSet<usize>,
    /// Whether the strip is drawn by how long things took.
    pub actual: bool,
}

/// Whether every turn that can be folded is, and there is one.
pub open spec fn turns_all_folded(cells: Seq<TrajCell>, folded: Set<u64>) -> bool {
    &&& exists|t: u64| #[trigger] turn_folds(cells, t)
    &&& forall|t: u64| #[trigger] turn_folds(cells, t) ==> folded.contains(t)
}

/// Whether every answer whose calls can be folded is, and there is one.
pub open spec fn calls_all_folded(cells: Seq<TrajCell>, folded: Set<usize>) -> bool {
    &&& exists|x: usize| #[trigger] call_folds(cells, x)
    &&& forall|x: usize| #[trigger] call_folds(cells, x) ==> folded.contains(x)
}

impl Ledger {
    /// A ledger with nothing folded.
    pub fn new() -> (r: Ledger)
        ensures
            r.collapsed_turns@ == Set::<u64>::empty(),
            r.collapsed_assistants@ == Set::<usize>::empty(),
            !r.actual,
    {
        Ledger {
            collapsed_turns: HashSet::new(),
            collapsed_assistants: HashSet::new(),
            actual: false,
        }
    }

    /// Draws the strip the other way.
    pub fn toggle_duration(&mut self)
        ensures
            final(self).actual == !old(self).actual,
            final(self).collapsed_turns@ == old(self).collapsed_turns@,
            final(self).collapsed_assistants@ == old(self).collapsed_assistants@,
    {
        self.actual = !self.actual;
    }

    /// Folds or unfolds a turn that can be folded.
    pub fn toggle_turn(&mut self, cells: &[TrajCell], turn: u64)
        ensures
            final(self).collapsed_turns@ == (if !turn_folds(cells@, turn) {
                old(self).collapsed_turns@
            } else if old(self).collapsed_turns@.contains(turn) {
                old(self).collapsed_turns@.remove(turn)
            } else {
                old(self).collapsed_turns@.insert(turn)
            }),
            final(self).collapsed_assistants@ == old(self).collapsed_assistants@,
            final(self).actual == old(self).actual,
    {
        let folds = traj_collapsible_turns(cells);
        if folds.contains(&turn) {
            let ghost before = self.collapsed_turns@;
            if !self.collapsed_turns.remove(&turn) {
                assert(before.remove(turn) =~= before);
                self.collapsed_turns.insert(turn);
            }
        }
    }

    /// Unfolds a turn.
    pub fn expand_turn(&mut self, turn: u64)
        ensures
            final(self).collapsed_turns@ == old(self).collapsed_turns@.remove(turn),
            final(self).collapsed_assistants@ == old(self).collapsed_assistants@,
            final(self).actual == old(self).actual,
    {
        self.collapsed_turns.remove(&turn);
    }

    /// Unfolds the calls of an answer.
    pub fn expand_calls(&mut self, index: usize)
        ensures
            final(self).collapsed_assistants@ == old(self).collapsed_assistants@.remove(index),
            final(self).collapsed_turns@ == old(self).collapsed_turns@,
            final(self).actual == old(self).actual,
    {
        self.collapsed_assistants.remove(&index);
    }

    /// Whether every turn that can be folded is, and there is one.
    pub fn all_turns_collapsed(&self, cells: &[TrajCell]) -> (r: bool)
        ensures
            r == turns_all_folded(cells@, self.collapsed_turns@),
    {
        let folds = traj_collapsible_turns(cells);
        let mut any = false;
        let mut i: usize = 0;
        while i < cells.len()
            invariant
                i <= cells@.len(),
                forall|t: u64| #[trigger] folds@.contains(t) <==> turn_folds(cells@, t),
                any ==> exists|t: u64| #[trigger] turn_folds(cells@, t),
                forall|j: int|
                    0 <= j < i && folds@.contains((#[trigger] cells@[j]).turn) ==> any
                        && self.collapsed_turns@.contains(cells@[j].turn),
            decreases cells@.len() - i,
        {
            let turn: u64 = cells[i].turn;
            if folds.contains(&turn) {
                assert(turn_folds(cells@, turn));
                if !self.collapsed_turns.contains(&turn) {
                    return false;
                }
                any = true;
            }
            i += 1;
        }
        proof {
            assert forall|t: u64| #[trigger] turn_folds(cells@, t) implies any
                && self.collapsed_turns@.contains(t) by {
                let (a, b) = choose|a: int, b: int|
                    0 <= a < b < cells@.len() && (#[trigger] cells@[a]).turn == t && (
                    #[trigger] cells@[b]).turn == t;
                assert(folds@.contains(cells@[a].turn));
            }
        }
        any
    }

    /// Whether every answer whose calls can be folded is, and there is one.
    pub fn all_calls_collapsed(&self, cells: &[TrajCell]) -> (r: bool)
        ensures
            r == calls_all_folded(cells@, self.collapsed_assistants@),
    {
        let mut any = false;
        let mut i: usize = 0;
        while i < cells.len()
            invariant
                i <= cells@.len(),
                any ==> exists|x: usize| #[trigger] call_folds(cells@, x),
                forall|j: int|
                    0 <= j < i && #[trigger] has_calls_behind(cells@, j) ==> any
                        && self.collapsed_assistants@.contains(cells@[j].index),
            decreases cells@.len() - i,
        {
            if cells.len() - i > 1 && cells[i].kind == TrajKind::Message && cells[i + 1].kind
                == TrajKind::Tool {
                assert(has_calls_behind(cells@, i as int));
                assert(call_folds(cells@, cells@[i as int].index));
                if !self.collapsed_assistants.contains(&cells[i].index) {
                    return false;
                }
                any = true;
            }
            i += 1;
        }
        any
    }

    /// Unfolds all turns where all are folded, else folds all that can be.
    pub fn toggle_all_turns(&mut self, cells: &[TrajCell])
        ensures
            final(self).collapsed_turns@ == (if turns_all_folded(
                cells@,
                old(self).collapsed_turns@,
            ) {
                old(self).collapsed_turns@.difference(Set::new(|t: u64| turn_folds(cells@, t)))
            } else {
                old(self).collapsed_turns@.union(Set::new(|t: u64| turn_folds(cells@, t)))
            }),
            final(self).collapsed_assistants@ == old(self).collapsed_assistants@,
            final(self).actual == old(self).actual,
    {
        let all = self.all_turns_collapsed(cells);
        let folds = traj_collapsible_turns(cells);
        let ghost before = self.collapsed_turns@;
        let mut i: usize = 0;
        while i < cells.len()
            invariant
                i <= cells@.len(),
                forall|t: u64| #[trigger] folds@.contains(t) <==> turn_folds(cells@, t),
                self.collapsed_assistants@ == old(self).collapsed_assistants@,
                self.actual == old(self).actual,
                forall|t: u64|
                    all ==> (#[trigger] self.collapsed_turns@.contains(t) ==> before.contains(t)),
                forall|t: u64|
                    all && before.contains(t) && !#[trigger] self.collapsed_turns@.contains(t)
                        ==> turn_folds(cells@, t),
                forall|t: u64|
                    !all && before.contains(t) ==> #[trigger] self.collapsed_turns@.contains(t),
                forall|t: u64|
                    !all && #[trigger] self.collapsed_turns@.contains(t) ==> before.contains(t)
                        || turn_folds(cells@, t),
                forall|j: int|
                    0 <= j < i && folds@.contains((#[trigger] cells@[j]).turn)
                        ==> self.collapsed_turns@.contains(cells@[j].turn) == !all,
            decreases cells@.len() - i,
        {
            let turn: u64 = cells[i].turn;
            if folds.contains(&turn) {
                if all {
                    self.collapsed_turns.remove(&turn);
                } else {
                    self.collapsed_turns.insert(turn);
                }
            }
            i += 1;
        }
        proof {
            assert forall|t: u64| #[trigger] turn_folds(cells@, t) implies self.collapsed_turns@.contains(
                t,
            ) == !all by {
                let (a, b) = choose|a: int, b: int|
                    0 <= a < b < cells@.len() && (#[trigger] cells@[a]).turn == t && (
                    #[trigger] cells@[b]).turn == t;
                assert(folds@.contains(cells@[a].turn));
            }
            let set = Set::new(|t: u64| turn_folds(cells@, t));
            if all {
                assert(self.collapsed_turns@ =~= before.difference(set));
            } else {
                assert(self.collapsed_turns@ =~= before.union(set));
            }
        }
    }

    /// Unfolds the calls of all answers where all are folded, else folds all
    /// that can be.
    pub fn toggle_all_calls(&mut self, cells: &[TrajCell])
        ensures
            final(self).collapsed_assistants@ == (if calls_all_folded(
                cells@,
                old(self).collapsed_assistants@,
            ) {
                Set::<usize>::empty()
            } else {
                old(self).collapsed_assistants@.union(Set::new(|x: usize| call_folds(cells@, x)))
            }),
            final(self).collapsed_turns@ == old(self).collapsed_turns@,
            final(self).actual == old(self).actual,
    {
        if self.all_calls_collapsed(cells) {
            self.collapsed_assistants.clear();
            return ;
        }
        let ghost before = self.collapsed_assistants@;
        let mut i: usize = 0;
        while i < cells.len()
            invariant
                i <= cells@.len(),
                self.collapsed_turns@ == old(self).collapsed_turns@,
                self.actual == old(self).actual,
                forall|x: usize|
                    before.contains(x) ==> #[trigger] self.collapsed_assistants@.contains(x),
                forall|x: usize| #[trigger]
                    self.collapsed_assistants@.contains(x) ==> before.contains(x) || call_folds(
                        cells@,
                        x,
                    ),
                forall|j: int|
                    0 <= j < i && #[trigger] has_calls_behind(cells@, j)
                        ==> self.collapsed_assistants@.contains(cells@[j].index),
            decreases cells@.len() - i,
        {
            if cells.len() - i > 1 && cells[i].kind == TrajKind::Message && cells[i + 1].kind
                == TrajKind::Tool {
                assert(has_calls_behind(cells@, i as int));
                assert(call_folds(cells@, cells@[i as int].index));
                self.collapsed_assistants.insert(cells[i].index);
            }
            i += 1;
        }
        assert(self.collapsed_assistants@ =~= before.union(
            Set::new(|x: usize| call_folds(cells@, x)),
        ));
    }
}

// ---------------------------------------------------------------------------
// rows
// ---------------------------------------------------------------------------

/// The times of all cells, added up.
pub open spec fn times(cells: Seq<TrajCell>) -> nat {
    traj::time_sum(cells, 0, cells.len())
}

proof fn lemma_run_within(cells: Seq<TrajCell>, at: int, run: traj::Run)
    requires
        0 <= at <= cells.len(),
    ensures
        at + traj::run_len(cells, at, run) <= cells.len(),
    decreases cells.len() - at,
{
    if at < cells.len() && traj::fits(run, cells[at]) {
        lemma_run_within(cells, at + 1, run);
    }
}

proof fn lemma_time_part(cells: Seq<TrajCell>, at: int, n: nat, m: nat)
    requires
        0 <= at,
        at + n <= m,
    ensures
        traj::time_sum(cells, at, n) <= traj::time_sum(cells, 0, m),
    decreases n + m,
{
    if n == 0 {
    } else if at + n == m {
        lemma_time_part(cells, at, (n - 1) as nat, (m - 1) as nat);
        assert(at + n - 1 == 0 + m - 1);
    } else {
        lemma_time_part(cells, at, n, (m - 1) as nat);
    }
}

proof fn lemma_times_of_found(cells: Seq<TrajCell>, keep: spec_fn(TrajCell) -> bool)
    ensures
        times(cells.filter(keep)) <= times(cells),
        cells.filter(keep).len() <= cells.len(),
    decreases cells.len(),
{
    reveal(Seq::filter);
    if cells.len() > 0 {
        let head = cells.drop_last();
        lemma_times_of_found(head, keep);
        lemma_time_same(cells, head, head.len());
        if keep(cells.last()) {
            let kept = head.filter(keep);
            lemma_time_same(kept.push(cells.last()), kept, kept.len());
        }
    }
}

proof fn lemma_time_same(a: Seq<TrajCell>, b: Seq<TrajCell>, n: nat)
    requires
        n <= a.len(),
        n <= b.len(),
        forall|i: int| 0 <= i < n ==> a[i] == b[i],
    ensures
        traj::time_sum(a, 0, n) == traj::time_sum(b, 0, n),
    decreases n,
{
    if n > 0 {
        lemma_time_same(a, b, (n - 1) as nat);
        assert(a[n - 1] == b[n - 1]);
    }
}

proof fn lemma_groups_fit(
    cells: Seq<TrajCell>,
    turns: Set<u64>,
    folded: Set<usize>,
    at: int,
    last: Option<u64>,
)
    requires
        times(cells) <= u64::MAX,
    ensures
        traj::times_fit(cells, turns, folded, at, last),
    decreases
            if at < cells.len() {
                cells.len() - at
            } else {
                0
            },
{
    if 0 <= at < cells.len() {
        let turn = cells[at].turn;
        let size = traj::run_len(cells, at, traj::Run::Turn(turn));
        let n = traj::group_len(cells, at);
        if last != Some(turn) && turns.contains(turn) && size > 1 {
            lemma_groups_fit(cells, turns, folded, at + size, Some(turn));
        } else if n > 0 {
            lemma_run_within(cells, at, traj::Run::PlainOfTurn(turn));
            lemma_run_within(cells, at + 1, traj::Run::ToolsOfTurn(turn));
            lemma_time_part(cells, at, n, cells.len());
            let hidden = traj::summed_up(cells, folded, at, n);
            lemma_groups_fit(cells, turns, folded, at + n + hidden, Some(turn));
        }
    }
}

/// Where the times of all cells add up to a number of 64 bits, so do those of
/// every group that is shown, whatever is folded or searched for.
pub proof fn times_that_add_up_fit(
    cells: Seq<TrajCell>,
    query: Seq<char>,
    turns: Set<u64>,
    folded: Set<usize>,
)
    requires
        times(cells) <= u64::MAX,
    ensures
        traj::times_fit(visible(cells, query), turns, folded, 0, None),
{
    lemma_times_of_found(cells, |c: TrajCell| found(c, query));
    lemma_groups_fit(visible(cells, query), turns, folded, 0, None);
}

/// The folded turns that count: none while something is searched for.
pub open spec fn turns_folded(ledger: Ledger, query: Seq<char>) -> Set<u64> {
    if query.len() == 0 {
        ledger.collapsed_turns@
    } else {
        Set::empty()
    }
}

/// The folded answers that count: none while something is searched for.
pub open spec fn calls_folded(ledger: Ledger, query: Seq<char>) -> Set<usize> {
    if query.len() == 0 {
        ledger.collapsed_assistants@
    } else {
        Set::empty()
    }
}

/// The rows of a ledger: the cells that are found, laid out.
pub open spec fn ledger_rows(ledger: Ledger, cells: Seq<TrajCell>, query: Seq<char>) -> Seq<
    (traj::RowView, nat),
> {
    traj::layout(
        visible(cells, query),
        turns_folded(ledger, query),
        calls_folded(ledger, query),
        0,
        None,
    )
}

impl Ledger {
    /// The cells that are found, the rows that they are laid out in, and where
    /// each row starts.
    pub fn traj_rows(&self, cells: Vec<TrajCell>, query: &str) -> (r: (
        Vec<TrajCell>,
        Vec<TrajRow>,
        Vec<u64>,
    ))
        requires
            cells@.len() <= 0xff_ffff_ffff_ffff,
            traj::times_fit(
                visible(cells@, query@),
                turns_folded(*self, query@),
                calls_folded(*self, query@),
                0,
                None,
            ),
        ensures
            r.0@ == visible(cells@, query@),
            traj::shows(r.1.deep_view(), r.2@, ledger_rows(*self, cells@, query@)),
    {
        let shown = traj_visible_cells(cells, query);
        let (rows, tops) = if text::char_count(query) == 0 {
            traj::traj_layout(
                shown.as_slice(),
                &self.collapsed_turns,
                &self.collapsed_assistants,
            )
        } else {
            let no_turns: HashSet<u64> = HashSet::new();
            let no_calls: HashSet<usize> = HashSet::new();
            traj::traj_layout(shown.as_slice(), &no_turns, &no_calls)
        };
        (shown, rows, tops)
    }
}

/// The place of the cell of a tool call, by the number of calls before it; the
/// first place where there is none.
pub open spec fn call_cell(cells: Seq<TrajCell>, from: int, ord: nat) -> int
    decreases cells.len() - from,
{
    if from < 0 || from >= cells.len() {
        0
    } else if cells[from].kind != TrajKind::Tool {
        call_cell(cells, from + 1, ord)
    } else if ord == 0 {
        from
    } else {
        call_cell(cells, from + 1, (ord - 1) as nat)
    }
}

/// The first row from `from` on that holds a cell.
pub open spec fn row_of_cell(rows: Seq<traj::RowView>, from: int, cell: int) -> Option<int>
    decreases rows.len() - from,
{
    if from < 0 || from >= rows.len() {
        None
    } else if rows[from] == traj::RowView::Cell(cell) {
        Some(from)
    } else {
        row_of_cell(rows, from + 1, cell)
    }
}

/// The row to scroll to for a tool call, by the number of calls before it; the
/// place of its cell where no row holds it.
pub fn traj_child_index(cells: &[TrajCell], rows: &[TrajRow], ord: usize) -> (r: usize)
    ensures
        r == (match row_of_cell(
            rows.deep_view(),
            0,
            call_cell(cells@, 0, ord as nat),
        ) {
            Some(i) => i,
            None => call_cell(cells@, 0, ord as nat),
        }),
{
    let mut place: usize = 0;
    let mut left: usize = ord;
    let mut i: usize = 0;
    let mut done = false;
    while i < cells.len() && !done
        invariant
            i <= cells@.len(),
            !done ==> place == 0 && call_cell(cells@, 0, ord as nat) == call_cell(
                cells@,
                i as int,
                left as nat,
            ),
            done ==> place == call_cell(cells@, 0, ord as nat),
        decreases cells@.len() - i, (if done {
            0int
        } else {
            1int
        }),
    {
        if cells[i].kind == TrajKind::Tool {
            if left == 0 {
                place = i;
                done = true;
            } else {
                left -= 1;
            }
        }
        if !done {
            i += 1;
        }
    }
    let ghost view = rows.deep_view();
    let mut k: usize = 0;
    while k < rows.len()
        invariant
            k <= rows@.len(),
            view == rows.deep_view(),
            view.len() == rows@.len(),
            place == call_cell(cells@, 0, ord as nat),
            row_of_cell(view, 0, place as int) == row_of_cell(view, k as int, place as int),
        decreases rows@.len() - k,
    {
        assert(view[k as int] == rows@[k as int].deep_view());
        if let TrajRow::Cell(x) = &rows[k] {
            if *x == place {
                return k;
            }
        }
        k += 1;
    }
    place
}

/// The headers of turns among the rows, each with where it starts.
pub open spec fn headers_of(rows: Seq<traj::RowView>, tops: Seq<u64>, n: int) -> Seq<(u64, u64)>
    decreases n,
{
    if n <= 0 {
        Seq::empty()
    } else {
        match rows[n - 1] {
            traj::RowView::Header(turn) => headers_of(rows, tops, n - 1).push(
                (turn, tops[n - 1]),
            ),
            _ => headers_of(rows, tops, n - 1),
        }
    }
}

/// The headers of turns among the rows, each with where it starts.
pub fn header_places(rows: &[TrajRow], tops: &[u64]) -> (r: Vec<(u64, u64)>)
    requires
        rows@.len() == tops@.len(),
    ensures
        r@ == headers_of(rows.deep_view(), tops@, rows@.len() as int),
{
    let ghost view = rows.deep_view();
    let mut out: Vec<(u64, u64)> = Vec::new();
    let mut i: usize = 0;
    while i < rows.len()
        invariant
            i <= rows@.len(),
            rows@.len() == tops@.len(),
            view == rows.deep_view(),
            out@ == headers_of(view, tops@, i as int),
        decreases rows@.len() - i,
    {
        assert(view[i as int] == rows@[i as int].deep_view());
        if let TrajRow::Header(turn) = &rows[i] {
            out.push((*turn, tops[i]));
        }
        i += 1;
    }
    out
}

/// The height that the last row takes.
pub open spec fn last_height(row: traj::RowView) -> nat {
    match row {
        traj::RowView::Header(_) => (traj::TRAJ_HEADER_PX + traj::TRAJ_BODY_PAD_T_PX) as nat,
        traj::RowView::Cell(_) => (traj::TRAJ_CELL_PX + traj::TRAJ_BODY_PAD_B_PX) as nat,
        traj::RowView::Group(..) => (traj::TRAJ_GROUP_PX + traj::TRAJ_CELL_GAP_PX) as nat,
        traj::RowView::TurnSummary(..) => (traj::TRAJ_SUMMARY_PX + traj::TRAJ_BODY_PAD_B_PX) as nat,
        traj::RowView::AssistantSummary(..) => (traj::TRAJ_SUMMARY_PX
            + traj::TRAJ_BODY_PAD_B_PX) as nat,
    }
}

/// The height of all rows together.
pub fn total_height(rows: &[TrajRow], tops: &[u64]) -> (r: u64)
    requires
        rows@.len() == tops@.len(),
        tops@.len() > 0 ==> tops@.last() <= u64::MAX - 100,
    ensures
        r == (if rows@.len() == 0 {
            0
        } else {
            (tops@.last() + last_height(rows.deep_view().last())) as int
        }),
{
    let n: usize = rows.len();
    if n == 0 {
        return 0;
    }
    assert(rows.deep_view().last() == rows@[n - 1].deep_view());
    let top: u64 = tops[n - 1];
    let more: u64 = match &rows[n - 1] {
        TrajRow::Header(_) => traj::TRAJ_HEADER_PX + traj::TRAJ_BODY_PAD_T_PX,
        TrajRow::Cell(_) => traj::TRAJ_CELL_PX + traj::TRAJ_BODY_PAD_B_PX,
        TrajRow::Group(_, _) => traj::TRAJ_GROUP_PX + traj::TRAJ_CELL_GAP_PX,
        TrajRow::TurnSummary(_, _) => traj::TRAJ_SUMMARY_PX + traj::TRAJ_BODY_PAD_B_PX,
        TrajRow::AssistantSummary(_, _) => traj::TRAJ_SUMMARY_PX + traj::TRAJ_BODY_PAD_B_PX,
    };
    top + more
}

/// The space below a row: more at the end of a turn.
pub open spec fn space_after(rows: Seq<traj::RowView>, i: int) -> nat {
    if i + 1 >= rows.len() || rows[i + 1] is Header {
        traj::TRAJ_BODY_PAD_B_PX as nat
    } else {
        traj::TRAJ_CELL_GAP_PX as nat
    }
}

/// The space below the row of a cell or of folded calls.
pub fn row_gap(rows: &[TrajRow], i: usize) -> (r: u64)
    requires
        i < rows@.len(),
    ensures
        r == space_after(rows.deep_view(), i as int),
{
    let ghost view = rows.deep_view();
    if rows.len() - i > 1 {
        assert(view[i + 1] == rows@[i + 1].deep_view());
        if let TrajRow::Header(_) = &rows[i + 1] {
            traj::TRAJ_BODY_PAD_B_PX
        } else {
            traj::TRAJ_CELL_GAP_PX
        }
    } else {
        traj::TRAJ_BODY_PAD_B_PX
    }
}

// ---------------------------------------------------------------------------
// what a cell says
// ---------------------------------------------------------------------------

/// The name of a kind of cell.
pub open spec fn tag_of(kind: TrajKind) -> Seq<char> {
    match kind {
        TrajKind::User => "用户"@,
        TrajKind::Message => "消息"@,
        TrajKind::Tool => "工具"@,
    }
}

/// The name of a kind of cell.
pub fn tag_label(kind: TrajKind) -> (r: &'static str)
    ensures
        r@ == tag_of(kind),
{
    match kind {
        TrajKind::User => "用户",
        TrajKind::Message => "消息",
        TrajKind::Tool => "工具",
    }
}

/// The track of the time strip that a kind of cell is drawn on.
pub fn strip_lane(kind: TrajKind) -> (r: u8)
    ensures
        r == (match kind {
            TrajKind::User => 0int,
            TrajKind::Message => 1,
            TrajKind::Tool => 2,
        }),
{
    match kind {
        TrajKind::User => 0,
        TrajKind::Message => 1,
        TrajKind::Tool => 2,
    }
}

/// The weight of a cell on the time strip: its time, and at least 1.
pub fn strip_weight(c: &TrajCell) -> (r: u64)
    ensures
        r == (match c.time_ms {
            Some(ms) => if ms > 1 {
                ms
            } else {
                1
            },
            None => 1,
        }),
{
    match c.time_ms {
        Some(ms) => if ms > 1 {
            ms
        } else {
            1
        },
        None => 1,
    }
}

/// Whether the turn changes at a cell.
pub open spec fn turn_starts(cells: Seq<TrajCell>, i: int) -> bool {
    i == 0 || cells[i - 1].turn != cells[i].turn
}

/// The places of the first `n` cells at which the turn changes.
pub open spec fn starts(cells: Seq<TrajCell>, n: int) -> Seq<int>
    decreases n,
{
    if n <= 0 {
        Seq::empty()
    } else if turn_starts(cells, n - 1) {
        starts(cells, n - 1).push(n - 1)
    } else {
        starts(cells, n - 1)
    }
}

/// The places at which the turn changes: the ticks of the time strip.
pub fn strip_ticks(cells: &[TrajCell]) -> (r: Vec<usize>)
    ensures
        crate::rows::places(r@) == starts(cells@, cells@.len() as int),
{
    let mut out: Vec<usize> = Vec::new();
    let mut i: usize = 0;
    assert(crate::rows::places(out@) =~= Seq::empty());
    while i < cells.len()
        invariant
            i <= cells@.len(),
            crate::rows::places(out@) == starts(cells@, i as int),
        decreases cells@.len() - i,
    {
        if i == 0 || cells[i - 1].turn != cells[i].turn {
            let ghost before = out@;
            out.push(i);
            assert(crate::rows::places(out@) =~= crate::rows::places(before).push(i as int));
        }
        i += 1;
    }
    out
}

/// A figure, or nothing.
pub open spec fn figure_text(n: Option<u64>) -> Seq<char> {
    match n {
        Some(n) => text::dec(n as nat),
        None => Seq::empty(),
    }
}

/// A figure, or nothing.
fn figure(n: Option<u64>) -> (r: String)
    ensures
        r@ == figure_text(n),
{
    match n {
        Some(n) => text::decimal(n),
        None => String::new(),
    }
}

/// The columns of a cell: input, output and thought tokens, and time.
pub open spec fn columns_of(c: TrajCell) -> Seq<Seq<char>> {
    seq![
        figure_text(
            match c.metrics {
                Some(m) => Some(m.0),
                None => None,
            },
        ),
        figure_text(
            match c.metrics {
                Some(m) => Some(m.1),
                None => None,
            },
        ),
        figure_text(
            match c.metrics {
                Some(m) => m.2,
                None => None,
            },
        ),
        crate::usage::span_of(c.time_ms),
    ]
}

/// The columns of a cell: input, output and thought tokens, and time.
pub fn columns(c: &TrajCell) -> (r: Vec<String>)
    ensures
        r.deep_view() == columns_of(*c),
{
    let (input, output, thought) = match c.metrics {
        Some(m) => (figure(Some(m.0)), figure(Some(m.1)), figure(m.2)),
        None => (figure(None), figure(None), figure(None)),
    };
    let time = match c.time_ms {
        Some(ms) => {
            let n = text::decimal_grouped(ms);
            text::concat2(n.as_str(), " 毫秒")
        },
        None => "—".to_string(),
    };
    let mut r: Vec<String> = Vec::new();
    r.push(input);
    r.push(output);
    r.push(thought);
    r.push(time);
    assert(r.deep_view() =~= columns_of(*c));
    r
}

/// A tool call that is looked at: its name and arguments.
pub struct Picked {
    pub name: String,
    pub arguments: String,
}

/// Whether a cell is the one looked at.
pub open spec fn picked_cell(c: TrajCell, tool: Option<Picked>, message: Option<usize>) -> bool {
    (match (c.tool, tool) {
        (Some(t), Some(p)) => p.name@ == t.name@ && p.arguments@ == t.arguments@,
        _ => false,
    }) || message == Some(c.index)
}

/// Whether a cell is the one looked at.
pub fn is_picked(c: &TrajCell, tool: &Option<Picked>, message: Option<usize>) -> (r: bool)
    ensures
        r == picked_cell(*c, *tool, message),
{
    let by_tool = match (&c.tool, tool) {
        (Some(t), Some(p)) => text::same(p.name.as_str(), t.name.as_str()) && text::same(
            p.arguments.as_str(),
            t.arguments.as_str(),
        ),
        _ => false,
    };
    let by_message = match message {
        Some(index) => index == c.index,
        None => false,
    };
    by_tool || by_message
}

/// Whether a tool call ended in an error.
pub open spec fn call_failed(c: TrajCell) -> bool {
    c.tool matches Some(t) && t.error && t.result is Some
}

/// Whether a tool call ended in an error.
pub fn has_failed(c: &TrajCell) -> (r: bool)
    ensures
        r == call_failed(*c),
{
    match &c.tool {
        Some(t) => t.error && t.result.is_some(),
        None => false,
    }
}

// ---------------------------------------------------------------------------
// the rail of turns
// ---------------------------------------------------------------------------

/// The entries that stand for a turn on the rail.
#[derive(Clone, Copy, Debug, PartialEq, Eq)]
pub struct RailTurn {
    pub turn: u64,
    /// Its first entry.
    pub first_ix: usize,
    /// Its first message by the user.
    pub user_ix: Option<usize>,
    /// Its last answer with text.
    pub answer_ix: Option<usize>,
}

/// The rail turn after one more of its entries.
pub open spec fn rail_step(t: RailTurn, e: EntryView, ix: int) -> RailTurn {
    RailTurn {
        user_ix: if e.role == Role::User && t.user_ix is None {
            Some(ix as usize)
        } else {
            t.user_ix
        },
        answer_ix: if e.role == Role::Assistant && texts_in(e.blocks).len() > 0 {
            Some(ix as usize)
        } else {
            t.answer_ix
        },
        ..t
    }
}

/// The turns of the first `n` entries: a new one wherever the turn changes.
pub open spec fn rail_of(entries: Seq<EntryView>, n: int) -> Seq<RailTurn>
    decreases n,
{
    if n <= 0 {
        Seq::empty()
    } else {
        let head = rail_of(entries, n - 1);
        let e = entries[n - 1];
        if head.len() > 0 && head.last().turn == e.turn {
            head.drop_last().push(rail_step(head.last(), e, n - 1))
        } else {
            head.push(
                rail_step(
                    RailTurn {
                        turn: e.turn,
                        first_ix: (n - 1) as usize,
                        user_ix: None,
                        answer_ix: None,
                    },
                    e,
                    n - 1,
                ),
            )
        }
    }
}

fn step_rail(t: RailTurn, e: &ChatEntry, ix: usize) -> (r: RailTurn)
    ensures
        r == rail_step(t, e.deep_view(), ix as int),
{
    let mut r = t;
    if e.role == Role::User && t.user_ix.is_none() {
        r.user_ix = Some(ix);
    }
    if e.role == Role::Assistant {
        let parts = text_parts(&e.blocks);
        assert(parts.deep_view().len() == parts@.len());
        if parts.len() > 0 {
            r.answer_ix = Some(ix);
        }
    }
    r
}

/// The turns of the transcript with the entries that stand for them.
pub fn rail_turns(entries: &Vec<ChatEntry>) -> (r: Vec<RailTurn>)
    ensures
        r@ == rail_of(entries.deep_view(), entries@.len() as int),
{
    let ghost view = entries.deep_view();
    let mut out: Vec<RailTurn> = Vec::new();
    let mut i: usize = 0;
    while i < entries.len()
        invariant
            i <= entries@.len(),
            view == entries.deep_view(),
            out@ == rail_of(view, i as int),
        decreases entries@.len() - i,
    {
        let e: &ChatEntry = &entries[i];
        assert(view[i as int] == e.deep_view());
        let n: usize = out.len();
        if n > 0 && out[n - 1].turn == e.turn {
            let t = out[n - 1];
            let next = step_rail(t, e, i);
            out.set(n - 1, next);
            assert(out@ =~= rail_of(view, i as int).drop_last().push(next));
        } else {
            let t = RailTurn { turn: e.turn, first_ix: i, user_ix: None, answer_ix: None };
            out.push(step_rail(t, e, i));
        }
        i += 1;
    }
    out
}

/// A mark of the rail.
#[derive(Clone, Debug)]
pub struct TurnRailItem {
    pub turn: u64,
    pub prompt: String,
    pub response: String,
    /// The entry that it leads to.
    pub anchor_ix: Option<usize>,
}

/// The contents of a mark.
pub struct MarkView {
    pub turn: u64,
    pub prompt: Seq<char>,
    pub response: Seq<char>,
    pub anchor_ix: Option<usize>,
}

impl DeepView for TurnRailItem {
    type V = MarkView;

    open spec fn deep_view(&self) -> MarkView {
        MarkView {
            turn: self.turn,
            prompt: self.prompt@,
            response: self.response@,
            anchor_ix: self.anchor_ix,
        }
    }
}

/// The entry that a turn leads to: the user's message, else its first entry.
pub fn rail_anchor(t: &RailTurn) -> (r: usize)
    ensures
        r == (match t.user_ix {
            Some(i) => i,
            None => t.first_ix,
        }),
{
    match t.user_ix {
        Some(i) => i,
        None => t.first_ix,
    }
}

/// The first text where it is not empty, else the second.
pub open spec fn or_text(a: Seq<char>, b: Seq<char>) -> Seq<char> {
    if a.len() == 0 {
        b
    } else {
        a
    }
}

/// The marks with those of the outline: a mark of the same turn keeps what it
/// says and is completed, another turn gets a mark of its own.
pub open spec fn outlined(marks: Seq<MarkView>, from: int, m: MarkView) -> Seq<MarkView>
    decreases marks.len() - from,
{
    if from < 0 || from >= marks.len() {
        marks.push(MarkView { anchor_ix: None, ..m })
    } else if marks[from].turn == m.turn {
        marks.update(
            from,
            MarkView {
                prompt: or_text(marks[from].prompt, m.prompt),
                response: or_text(marks[from].response, m.response),
                ..marks[from]
            },
        )
    } else {
        outlined(marks, from + 1, m)
    }
}

/// The marks with the first `n` of the outline.
pub open spec fn all_outlined(marks: Seq<MarkView>, outline: Seq<MarkView>, n: int) -> Seq<MarkView>
    decreases n,
{
    if n <= 0 {
        marks
    } else {
        outlined(all_outlined(marks, outline, n - 1), 0, outline[n - 1])
    }
}

/// `marks`, in order of turns, with `m` behind those of its turn.
pub open spec fn placed(marks: Seq<MarkView>, m: MarkView) -> Seq<MarkView>
    decreases marks.len(),
{
    if marks.len() == 0 || marks.last().turn <= m.turn {
        marks.push(m)
    } else {
        placed(marks.drop_last(), m).push(marks.last())
    }
}

/// The marks in order of turns; those of one turn stay as they were.
pub open spec fn by_turn(marks: Seq<MarkView>) -> Seq<MarkView>
    decreases marks.len(),
{
    if marks.len() == 0 {
        Seq::empty()
    } else {
        placed(by_turn(marks.drop_last()), marks.last())
    }
}

fn add_outline(marks: &mut Vec<TurnRailItem>, m: TurnRailItem)
    ensures
        final(marks).deep_view() == outlined(old(marks).deep_view(), 0, m.deep_view()),
{
    let ghost before = marks.deep_view();
    let mut i: usize = 0;
    while i < marks.len()
        invariant
            i <= marks@.len(),
            before == marks.deep_view(),
            before == old(marks).deep_view(),
            outlined(before, 0, m.deep_view()) == outlined(before, i as int, m.deep_view()),
        decreases marks@.len() - i,
    {
        assert(before[i as int] == marks@[i as int].deep_view());
        if marks[i].turn == m.turn {
            let prompt = if text::char_count(marks[i].prompt.as_str()) == 0 {
                m.prompt.clone()
            } else {
                marks[i].prompt.clone()
            };
            let response = if text::char_count(marks[i].response.as_str()) == 0 {
                m.response.clone()
            } else {
                marks[i].response.clone()
            };
            let next = TurnRailItem {
                turn: marks[i].turn,
                prompt,
                response,
                anchor_ix: marks[i].anchor_ix,
            };
            marks.set(i, next);
            assert(marks.deep_view() =~= before.update(i as int, next.deep_view()));
            return ;
        }
        i += 1;
    }
    let mut last = m;
    last.anchor_ix = None;
    marks.push(last);
    assert(marks.deep_view() =~= before.push(last.deep_view()));
}

proof fn lemma_placed(marks: Seq<MarkView>, m: MarkView, at: int)
    requires
        0 <= at <= marks.len(),
        at > 0 ==> marks[at - 1].turn <= m.turn,
        forall|i: int| at <= i < marks.len() ==> marks[i].turn > m.turn,
    ensures
        placed(marks, m) == marks.insert(at, m),
    decreases marks.len(),
{
    if at == marks.len() {
        assert(marks.push(m) =~= marks.insert(at, m));
    } else {
        lemma_placed(marks.drop_last(), m, at);
        assert(marks.drop_last().insert(at, m).push(marks.last()) =~= marks.insert(at, m));
    }
}

fn place(marks: &mut Vec<TurnRailItem>, m: TurnRailItem)
    ensures
        final(marks).deep_view() == placed(old(marks).deep_view(), m.deep_view()),
{
    let ghost before = marks.deep_view();
    let mut at: usize = marks.len();
    while at > 0 && marks[at - 1].turn > m.turn
        invariant
            at <= marks@.len(),
            before == marks.deep_view(),
            before.len() == marks@.len(),
            forall|i: int| at <= i < before.len() ==> before[i].turn > m.turn,
        decreases at,
    {
        assert(before[at - 1] == marks@[at - 1].deep_view());
        at -= 1;
    }
    proof {
        if at > 0 {
            assert(before[at - 1] == marks@[at - 1].deep_view());
        }
        lemma_placed(before, m.deep_view(), at as int);
    }
    marks.insert(at, m);
    assert(marks.deep_view() =~= before.insert(at as int, m.deep_view()));
}

/// The marks of the rail: those of the transcript, completed by the outline of
/// the session, in order of turns.
pub fn rail_items(loaded: Vec<TurnRailItem>, outline: Vec<TurnRailItem>) -> (r: Vec<TurnRailItem>)
    ensures
        r.deep_view() == by_turn(
            all_outlined(loaded.deep_view(), outline.deep_view(), outline@.len() as int),
        ),
{
    let ghost start = loaded.deep_view();
    let ghost lines = outline.deep_view();
    let mut merged = loaded;
    for m in it: outline
        invariant
            it.seq() == outline@,
            lines == outline.deep_view(),
            merged.deep_view() == all_outlined(start, lines, it.index() as int),
    {
        assert(lines[it.index() as int] == m.deep_view());
        add_outline(&mut merged, m);
    }
    let ghost all = merged.deep_view();
    let ghost raw = merged@;
    let mut out: Vec<TurnRailItem> = Vec::new();
    assert(out.deep_view() =~= by_turn(all.take(0)));
    for m in it: merged
        invariant
            it.seq() == raw,
            all.len() == raw.len(),
            forall|i: int| 0 <= i < raw.len() ==> all[i] == #[trigger] raw[i].deep_view(),
            out.deep_view() == by_turn(all.take(it.index() as int)),
    {
        let ghost k = it.index() as int;
        assert(all.take(k + 1).drop_last() =~= all.take(k));
        assert(all.take(k + 1).last() == m.deep_view());
        place(&mut out, m);
    }
    assert(all.take(all.len() as int) =~= all);
    out
}

// ---------------------------------------------------------------------------
// laws
// ---------------------------------------------------------------------------

proof fn lemma_placed_in_order(marks: Seq<MarkView>, m: MarkView)
    requires
        forall|i: int, j: int| 0 <= i < j < marks.len() ==> marks[i].turn <= marks[j].turn,
    ensures
        placed(marks, m).len() == marks.len() + 1,
        forall|i: int, j: int|
            0 <= i < j < placed(marks, m).len() ==> placed(marks, m)[i].turn <= placed(
                marks,
                m,
            )[j].turn,
        forall|i: int|
            0 <= i < placed(marks, m).len() ==> placed(marks, m)[i] == m || marks.contains(
                #[trigger] placed(marks, m)[i],
            ),
    decreases marks.len(),
{
    if marks.len() > 0 && marks.last().turn > m.turn {
        let head = marks.drop_last();
        lemma_placed_in_order(head, m);
        let p = placed(head, m);
        let all = p.push(marks.last());
        assert forall|i: int| 0 <= i < all.len() implies (#[trigger] all[i]).turn
            <= marks.last().turn && (all[i] == m || marks.contains(all[i])) by {
            if i < p.len() {
                assert(p[i] == all[i]);
                if p[i] != m {
                    let k = choose|k: int| 0 <= k < head.len() && head[k] == p[i];
                    assert(marks[k] == p[i]);
                }
            } else {
                assert(marks[marks.len() - 1] == all[i]);
            }
        }
    } else {
        let all = marks.push(m);
        assert forall|i: int| 0 <= i < all.len() implies all[i] == m || marks.contains(
            #[trigger] all[i],
        ) by {
            if i < marks.len() {
                assert(marks[i] == all[i]);
            }
        }
    }
}

/// The rail is in order of turns, and sorting neither adds nor drops a mark.
pub proof fn rail_is_in_order(marks: Seq<MarkView>)
    ensures
        by_turn(marks).len() == marks.len(),
        forall|i: int, j: int|
            0 <= i < j < marks.len() ==> by_turn(marks)[i].turn <= by_turn(marks)[j].turn,
    decreases marks.len(),
{
    if marks.len() > 0 {
        rail_is_in_order(marks.drop_last());
        lemma_placed_in_order(by_turn(marks.drop_last()), marks.last());
    }
}

/// The outline never takes a mark of the transcript away, nor changes where it
/// leads, nor what it already says.
pub proof fn outline_only_completes(marks: Seq<MarkView>, from: int, m: MarkView, i: int)
    requires
        0 <= i < marks.len(),
    ensures
        i < outlined(marks, from, m).len(),
        ({
            let after = outlined(marks, from, m)[i];
            &&& after.turn == marks[i].turn
            &&& after.anchor_ix == marks[i].anchor_ix
            &&& marks[i].prompt.len() > 0 ==> after.prompt == marks[i].prompt
            &&& marks[i].response.len() > 0 ==> after.response == marks[i].response
        }),
    decreases marks.len() - from,
{
    if 0 <= from < marks.len() && marks[from].turn != m.turn {
        outline_only_completes(marks, from + 1, m, i);
    }
}

/// The cells of a ledger are numbered from 1 on without a gap.
pub proof fn cells_are_numbered(
    entries: Seq<EntryView>,
    n: int,
    labels: Seq<Seq<char>>,
    cells: Seq<CellView>,
    i: int,
)
    requires
        is_ledger(entries, n, labels, cells),
        0 <= n,
        0 <= i < cells.len(),
    ensures
        cells[i].index == i + 1,
    decreases n,
{
    if n > 0 {
        assert(cells_stand(entries, labels, cells, n - 1));
        let at = cells_before(entries, n - 1) as int;
        if i >= at {
            let k = i - at - 1;
            if answers(entries[n - 1]) && i > at {
                assert(cells[at + 1 + k].index == at + 2 + k);
            }
        } else {
            let head = cells.take(at);
            assert forall|j: int| 0 <= j < n - 1 implies #[trigger] cells_stand(
                entries,
                labels,
                head,
                j,
            ) by {
                assert(cells_stand(entries, labels, cells, j));
                lemma_before_grows(entries, j + 1, n - 1);
                let e = entries[j];
                let from = cells_before(entries, j) as int;
                if answers(e) {
                    assert(head[from] == cells[from]);
                    assert forall|k: int| 0 <= k < fold::calls_in(e.blocks).len() implies (
                    #[trigger] head[from + 1 + k]) == tool_cell(
                        e.turn,
                        fold::calls_in(e.blocks)[k],
                        (from + 2 + k) as nat,
                        labels[calls_before(entries, j) + k],
                    ) by {
                        assert(head[from + 1 + k] == cells[from + 1 + k]);
                    }
                } else if !blank(in_line(texts_in(e.blocks))) {
                    assert(head[from] == cells[from]);
                }
            }
            cells_are_numbered(entries, n - 1, labels, head, i);
            assert(head[i] == cells[i]);
        }
    }
}

/// Folding all turns and then asking for it again unfolds them.
pub proof fn folding_all_turns_is_undone(cells: Seq<TrajCell>, folded: Set<u64>)
    requires
        exists|t: u64| turn_folds(cells, t),
        forall|t: u64| #[trigger] folded.contains(t) ==> !turn_folds(cells, t),
    ensures
        ({
            let all = Set::new(|t: u64| turn_folds(cells, t));
            &&& !turns_all_folded(cells, folded)
            &&& turns_all_folded(cells, folded.union(all))
            &&& folded.union(all).difference(all) == folded
        }),
{
    let all = Set::new(|t: u64| turn_folds(cells, t));
    let t = choose|t: u64| turn_folds(cells, t);
    assert(!folded.contains(t));
    assert(folded.union(all).difference(all) =~= folded);
}

/// The texts and the thoughts of an entry are its parts of these kinds, in
/// order.
pub proof fn every_part_is_told(blocks: Seq<BlockView>)
    ensures
        texts_in(blocks) == blocks.filter(|b: BlockView| b is Text).map_values(
            |b: BlockView| b->Text_0,
        ),
        thoughts_in(blocks) == blocks.filter(|b: BlockView| b is Reasoning).map_values(
            |b: BlockView| b->Reasoning_text,
        ),
    decreases blocks.len(),
{
    reveal(Seq::filter);
    let texts = |b: BlockView| b is Text;
    let text = |b: BlockView| b->Text_0;
    let thoughts = |b: BlockView| b is Reasoning;
    let thought = |b: BlockView| b->Reasoning_text;
    if blocks.len() > 0 {
        let head = blocks.drop_last();
        let last = blocks.last();
        every_part_is_told(head);
        if texts(last) {
            assert(head.filter(texts).push(last).map_values(text) =~= head.filter(
                texts,
            ).map_values(text).push(text(last)));
        }
        if thoughts(last) {
            assert(head.filter(thoughts).push(last).map_values(thought) =~= head.filter(
                thoughts,
            ).map_values(thought).push(thought(last)));
        }
    }
    assert(texts_in(blocks) =~= blocks.filter(texts).map_values(text));
    assert(thoughts_in(blocks) =~= blocks.filter(thoughts).map_values(thought));
}

/// Whether `line` is `s` with its line breaks turned to spaces.
pub open spec fn same_words(line: Seq<char>, s: Seq<char>) -> bool {
    &&& line.len() == s.len()
    &&& forall|i: int|
        0 <= i < s.len() ==> line[i] == (if s[i] == '\n' {
            ' '
        } else {
            #[trigger] s[i]
        })
}

proof fn lemma_single_text(blocks: Seq<BlockView>, s: Seq<char>)
    requires
        blocks == seq![BlockView::Text(s)],
    ensures
        texts_in(blocks) == seq![s],
        same_words(in_line(texts_in(blocks)), s),
        in_full(texts_in(blocks)) == s,
{
    reveal_with_fuel(texts_in, 2);
    assert(blocks.drop_last() =~= Seq::<BlockView>::empty());
    assert(texts_in(blocks) =~= seq![s]);
}

/// The cell of a message says what the message says: every word of it, on one
/// line, and in full in its details. It stands where the cells of the entries
/// before it end, in the turn of the message.
pub proof fn message_cell_says_the_message(
    entries: Seq<EntryView>,
    n: int,
    labels: Seq<Seq<char>>,
    cells: Seq<CellView>,
    i: int,
    s: Seq<char>,
)
    requires
        is_ledger(entries, n, labels, cells),
        0 <= i < n <= entries.len(),
        entries[i].role != Role::Assistant && entries[i].role != Role::Error,
        entries[i].blocks == seq![BlockView::Text(s)],
        exists|k: int| 0 <= k < s.len() && !text::is_white(#[trigger] s[k]),
    ensures
        ({
            let at = cells_before(entries, i) as int;
            &&& at < cells.len()
            &&& cells_before(entries, i + 1) == at + 1
            &&& cells[at].kind == TrajKind::User
            &&& cells[at].turn == entries[i].turn
            &&& same_words(cells[at].text, s)
            &&& cells[at].detail_text == s
            &&& !cells[at].dim
        }),
{
    assert(cells_stand(entries, labels, cells, i));
    lemma_single_text(entries[i].blocks, s);
    let line = in_line(texts_in(entries[i].blocks));
    let k = choose|k: int| 0 <= k < s.len() && !text::is_white(#[trigger] s[k]);
    assert(!text::is_white('\n') ==> false);
    assert(line[k] == s[k]);
    text::trimming_takes_blanks_off(line);
    if blank(line) {
        let j = choose|j: int|
            0 <= j && j + text::trimmed(line).len() <= line.len() && #[trigger] text::stands_at(
                line,
                text::trimmed(line),
                j,
            ) && (forall|k: int| 0 <= k < j ==> text::is_white(#[trigger] line[k])) && (forall|
                k: int,
            |
                j + text::trimmed(line).len() <= k < line.len() ==> text::is_white(
                    #[trigger] line[k],
                ));
        assert(text::is_white(line[k]));
    }
    lemma_cells_before_grow(entries, i + 1, n);
}

proof fn lemma_cells_before_grow(entries: Seq<EntryView>, i: int, n: int)
    requires
        0 <= i <= n,
    ensures
        cells_before(entries, i) <= cells_before(entries, n),
    decreases n,
{
    if i < n {
        lemma_cells_before_grow(entries, i, n - 1);
    }
}

/// Every text of a message stands in the line of its cell.
pub proof fn every_text_stands_in_the_cell(e: EntryView, index: nat, k: int)
    requires
        0 <= k < e.blocks.len(),
        e.blocks[k] is Text,
    ensures
        exists|t: Seq<char>|
            same_words(t, e.blocks[k]->Text_0) && #[trigger] text::holds_text(
                user_cell(e, index).text,
                t,
            ),
        text::holds_text(user_cell(e, index).detail_text, e.blocks[k]->Text_0),
{
    let texts = texts_in(e.blocks);
    let s = e.blocks[k]->Text_0;
    lemma_text_listed(e.blocks, k);
    let j = choose|j: int| 0 <= j < texts.len() && texts[j] == s;
    let lines = texts.map_values(|s: Seq<char>| one_line(s));
    text::parts_stand_in_the_whole(lines, " "@, j);
    text::parts_stand_in_the_whole(texts, "\n\n"@, j);
    assert(lines[j] == one_line(s));
    assert(same_words(one_line(s), s));
    assert(text::holds_text(user_cell(e, index).text, one_line(s)));
}

proof fn lemma_text_listed(blocks: Seq<BlockView>, k: int)
    requires
        0 <= k < blocks.len(),
        blocks[k] is Text,
    ensures
        exists|j: int| 0 <= j < texts_in(blocks).len() && texts_in(blocks)[j] == blocks[k]->Text_0,
    decreases blocks.len(),
{
    let texts = texts_in(blocks);
    if k == blocks.len() - 1 {
        assert(texts[texts.len() - 1] == blocks[k]->Text_0);
    } else {
        lemma_text_listed(blocks.drop_last(), k);
        let head = texts_in(blocks.drop_last());
        let j = choose|j: int| 0 <= j < head.len() && head[j] == blocks.drop_last()[k]->Text_0;
        assert(texts[j] == head[j]);
    }
}

/// The cell of an answer carries the turn, the step, the time and the figures
/// of the answer; the cells of its calls follow it one by one, each with its
/// call, its label and the time it took, and an answer takes one cell and one
/// for each call.
pub proof fn answer_cells_tell_the_answer(
    entries: Seq<EntryView>,
    n: int,
    labels: Seq<Seq<char>>,
    cells: Seq<CellView>,
    i: int,
    k: int,
)
    requires
        is_ledger(entries, n, labels, cells),
        0 <= i < n <= entries.len(),
        entries[i].role == Role::Assistant || entries[i].role == Role::Error,
    ensures
        ({
            let at = cells_before(entries, i) as int;
            let e = entries[i];
            let calls = fold::calls_in(e.blocks);
            let c = cells[at];
            &&& cells_before(entries, i + 1) == at + 1 + calls.len()
            &&& c.kind == TrajKind::Message
            &&& c.turn == e.turn
            &&& c.step == e.step
            &&& c.time_ms == e.step_duration_ms
            &&& c.metrics is Some == e.usage is Some
            &&& e.usage matches Some(u) ==> (c.metrics->0).0 == u.input_tokens && (c.metrics->0).1
                == u.output_tokens && ((c.metrics->0).2 is Some == u.reasoning is Some)
            &&& c.tool is None
            &&& 0 <= k < calls.len() ==> ({
                let t = cells[at + 1 + k];
                &&& t.kind == TrajKind::Tool
                &&& t.tool == Some(calls[k])
                &&& t.turn == e.turn
                &&& t.time_ms == calls[k].duration_ms
                &&& t.text == labels[calls_before(entries, i) + k]
            })
        }),
{
    assert(cells_stand(entries, labels, cells, i));
}

/// The cell of an answer says its text, where it has one; an answer that only
/// thinks says its thoughts, and one that only calls tools says that, dimmed.
pub proof fn answer_says_what_it_can(blocks: Seq<BlockView>, s: Seq<char>)
    ensures
        blocks == seq![BlockView::Text(s)] ==> same_words(answer_text(blocks).0, s)
            && !answer_text(blocks).1,
        answer_text(blocks).1 ==> exists|i: int|
            0 <= i < blocks.len() && (#[trigger] blocks[i]) is Tool,
        blocks.len() > 0 && (forall|i: int|
            0 <= i < blocks.len() ==> (#[trigger] blocks[i]) is Tool) ==> answer_text(blocks)
            == ("仅工具调用"@, true),
{
    if blocks == seq![BlockView::Text(s)] {
        lemma_single_text(blocks, s);
        reveal_with_fuel(thoughts_in, 2);
        reveal_with_fuel(fold::calls_in, 2);
        assert(blocks.drop_last() =~= Seq::<BlockView>::empty());
    }
    lemma_call_among(blocks);
    if blocks.len() > 0 && (forall|i: int|
        0 <= i < blocks.len() ==> (#[trigger] blocks[i]) is Tool) {
        lemma_calls_alone(blocks);
        assert(in_line(Seq::empty()) =~= Seq::<char>::empty());
        assert(fold::calls_in(blocks).len() > 0) by {
            assert(blocks[blocks.len() - 1] is Tool);
        }
    }
}

proof fn lemma_call_among(blocks: Seq<BlockView>)
    ensures
        fold::calls_in(blocks).len() > 0 ==> exists|i: int|
            0 <= i < blocks.len() && (#[trigger] blocks[i]) is Tool,
    decreases blocks.len(),
{
    if blocks.len() > 0 {
        let head = blocks.drop_last();
        lemma_call_among(head);
        if blocks[blocks.len() - 1] is Tool {
        } else if fold::calls_in(head).len() > 0 {
            let i = choose|i: int| 0 <= i < head.len() && (#[trigger] head[i]) is Tool;
            assert(blocks[i] is Tool);
        }
    }
}

proof fn lemma_calls_alone(blocks: Seq<BlockView>)
    requires
        forall|i: int| 0 <= i < blocks.len() ==> (#[trigger] blocks[i]) is Tool,
    ensures
        texts_in(blocks) == Seq::<Seq<char>>::empty(),
        thoughts_in(blocks) == Seq::<Seq<char>>::empty(),
    decreases blocks.len(),
{
    if blocks.len() > 0 {
        let head = blocks.drop_last();
        assert forall|i: int| 0 <= i < head.len() implies (#[trigger] head[i]) is Tool by {
            assert(head[i] == blocks[i]);
        }
        lemma_calls_alone(head);
        assert(blocks[blocks.len() - 1] is Tool);
    }
}

/// A search keeps the cells that hold what was searched for and no others; an
/// empty search keeps all.
pub proof fn search_keeps_what_holds_the_words(
    cells: Seq<TrajCell>,
    query: Seq<char>,
    c: TrajCell,
)
    ensures
        query.len() > 0 ==> (visible(cells, query).contains(c) <==> cells.contains(c)
            && text::holds_text(text::lowercased(c.text@), query)),
        query.len() == 0 ==> visible(cells, query) == cells,
{
    if query.len() > 0 {
        let keep = |c: TrajCell| found(c, query);
        if visible(cells, query).contains(c) {
            cells.lemma_filter_contains_rev(keep, c);
            let i = choose|i: int| 0 <= i < cells.filter(keep).len() && cells.filter(keep)[i] == c;
            cells.lemma_filter_pred(keep, i);
        }
        if cells.contains(c) && found(c, query) {
            let i = choose|i: int| 0 <= i < cells.len() && cells[i] == c;
            cells.lemma_filter_contains(keep, i);
        }
    }
}

/// The cell of a call is found by the number of calls before it.
pub proof fn call_is_found_by_its_number(cells: Seq<TrajCell>, i: int)
    requires
        0 <= i < cells.len(),
        cells[i].kind == TrajKind::Tool,
    ensures
        call_cell(
            cells,
            0,
            cells.take(i).filter(|c: TrajCell| c.kind == TrajKind::Tool).len(),
        ) == i,
{
    let is_call = |c: TrajCell| c.kind == TrajKind::Tool;
    assert(cells.take(i) =~= cells.subrange(0, i));
    lemma_call_cell(cells, 0, i);
}

proof fn lemma_call_cell(cells: Seq<TrajCell>, from: int, i: int)
    requires
        0 <= from <= i < cells.len(),
        cells[i].kind == TrajKind::Tool,
    ensures
        call_cell(
            cells,
            from,
            cells.subrange(from, i).filter(|c: TrajCell| c.kind == TrajKind::Tool).len(),
        ) == i,
    decreases i - from,
{
    let is_call = |c: TrajCell| c.kind == TrajKind::Tool;
    reveal(Seq::filter);
    if from < i {
        lemma_call_cell(cells, from + 1, i);
        let one = seq![cells[from]];
        let rest = cells.subrange(from + 1, i);
        assert(cells.subrange(from, i) =~= one + rest);
        Seq::filter_distributes_over_add(one, rest, is_call);
        assert(one.drop_last() =~= Seq::<TrajCell>::empty());
        assert(one.filter(is_call).len() == (if is_call(cells[from]) {
            1nat
        } else {
            0nat
        })) by {
            reveal_with_fuel(Seq::filter, 2);
        }
    } else {
        assert(cells.subrange(from, i) =~= Seq::<TrajCell>::empty());
    }
}

/// The headers of the rows are found with where they start, each of them and
/// in order.
pub proof fn every_header_is_placed(rows: Seq<traj::RowView>, tops: Seq<u64>, n: int, i: int)
    requires
        0 <= i < n <= rows.len(),
        rows.len() == tops.len(),
    ensures
        rows[i] is Header ==> headers_of(rows, tops, n).contains((rows[i]->Header_0, tops[i])),
        headers_of(rows, tops, n).len() == rows.take(n).filter(
            |r: traj::RowView| r is Header,
        ).len(),
    decreases n,
{
    reveal(Seq::filter);
    let head = headers_of(rows, tops, n - 1);
    assert(rows.take(n).drop_last() =~= rows.take(n - 1));
    if i < n - 1 {
        every_header_is_placed(rows, tops, n - 1, i);
        if rows[i] is Header {
            let k = choose|k: int|
                0 <= k < head.len() && head[k] == (rows[i]->Header_0, tops[i]);
            assert(headers_of(rows, tops, n)[k] == head[k]);
        }
    } else {
        if rows[i] is Header {
            let all = headers_of(rows, tops, n);
            assert(all[all.len() - 1] == (rows[i]->Header_0, tops[i]));
        }
        if n > 1 {
            every_header_is_placed(rows, tops, n - 1, n - 2);
        } else {
            assert(rows.take(0) =~= Seq::<traj::RowView>::empty());
        }
    }
}

/// The columns of a cell show the input, the output and the reasoning of an
/// answer, each as the number that it is.
pub proof fn columns_show_the_figures(c: TrajCell)
    ensures
        columns_of(c).len() == 4,
        c.metrics matches Some(m) ==> text::number(columns_of(c)[0]) == m.0 && text::number(
            columns_of(c)[1],
        ) == m.1 && (m.2 matches Some(n) ==> text::number(columns_of(c)[2]) == n) && (m.2 is None
            ==> columns_of(c)[2].len() == 0),
        c.metrics is None ==> columns_of(c)[0].len() == 0 && columns_of(c)[1].len() == 0
            && columns_of(c)[2].len() == 0,
{
    if let Some(m) = c.metrics {
        text::lemma_dec_reads(m.0 as nat);
        text::lemma_dec_reads(m.1 as nat);
        if let Some(n) = m.2 {
            text::lemma_dec_reads(n as nat);
        }
    }
}

/// A mark of the rail stands for one turn: it leads to entries of the turn, to
/// its first message by the user and to an answer with text.
pub proof fn rail_marks_their_turns(entries: Seq<EntryView>, n: int, k: int)
    requires
        0 <= n <= entries.len() <= usize::MAX,
        0 <= k < rail_of(entries, n).len(),
    ensures
        ({
            let t = rail_of(entries, n)[k];
            &&& t.first_ix < n
            &&& entries[t.first_ix as int].turn == t.turn
            &&& t.first_ix > 0 ==> entries[t.first_ix - 1].turn != t.turn
            &&& t.user_ix matches Some(u) ==> t.first_ix <= u < n && entries[u as int].role
                == Role::User && entries[u as int].turn == t.turn && forall|j: int|
                t.first_ix <= j < u ==> (#[trigger] entries[j]).role != Role::User
            &&& t.answer_ix matches Some(a) ==> t.first_ix <= a < n && entries[a as int].role
                == Role::Assistant && entries[a as int].turn == t.turn && texts_in(
                entries[a as int].blocks,
            ).len() > 0
        }),
    decreases n,
{
    let head = rail_of(entries, n - 1);
    let all = rail_of(entries, n);
    let e = entries[n - 1];
    lemma_rail_last(entries, n);
    if k < all.len() - 1 {
        assert(all[k] == head[k]);
        rail_marks_their_turns(entries, n - 1, k);
    } else if head.len() > 0 && head.last().turn == e.turn {
        rail_marks_their_turns(entries, n - 1, k);
        lemma_rail_last(entries, n - 1);
    } else if n > 1 {
        lemma_rail_last(entries, n - 1);
    }
}

proof fn lemma_rail_last(entries: Seq<EntryView>, n: int)
    requires
        0 < n <= entries.len() <= usize::MAX,
    ensures
        rail_of(entries, n).len() > 0,
        rail_of(entries, n).last().turn == entries[n - 1].turn,
        forall|j: int|
            rail_of(entries, n).last().first_ix <= j < n ==> (#[trigger] entries[j]).turn
                == entries[n - 1].turn,
        rail_of(entries, n).last().user_ix is None ==> forall|j: int|
            rail_of(entries, n).last().first_ix <= j < n ==> (#[trigger] entries[j]).role
                != Role::User,
    decreases n,
{
    if n > 1 {
        lemma_rail_last(entries, n - 1);
    }
}

} // verus!
