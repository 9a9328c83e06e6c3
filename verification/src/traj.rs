//! The trajectory ledger: its cells, and the rows that they are laid out in.

use crate::text;
use std::collections::HashSet;
use vstd::prelude::*;

verus! {

broadcast use vstd::std_specs::hash::group_hash_axioms;

/// A tool call as it is shown.
#[derive(Clone)]
pub struct ToolBlock {
    pub id: String,
    pub name: String,
    pub arguments: String,
    pub result: Option<String>,
    pub error: bool,
    pub open: bool,
    /// Whether a folded card is shown in full.
    pub expanded: bool,
    /// The file groups of a search card that are folded, in ascending order.
    pub collapsed_groups: Vec<usize>,
    /// From the message of the call to its result.
    pub duration_ms: Option<u64>,
}

/// What a ledger cell is.
#[derive(Clone, Copy, PartialEq, Eq, Structural)]
pub enum TrajKind {
    User,
    Message,
    Tool,
}

/// A cell of the ledger.
pub struct TrajCell {
    pub turn: u64,
    pub kind: TrajKind,
    /// The number of the cell in the ledger, from 1 on.
    pub index: usize,
    pub text: String,
    /// Whether the text is a stand-in.
    pub dim: bool,
    /// The step of the turn; user and tool cells have none.
    pub step: Option<u64>,
    /// The text with its line breaks.
    pub detail_text: String,
    pub reasoning: Option<String>,
    /// Input, output and reasoning tokens of a message.
    pub metrics: Option<(u64, u64, Option<u64>)>,
    pub time_ms: Option<u64>,
    pub tool: Option<ToolBlock>,
}

/// A row of the ledger.
#[derive(Clone)]
pub enum TrajRow {
    /// The header of a turn.
    Header(u64),
    /// A cell, by its position.
    Cell(usize),
    /// The header of a group: title and total time.
    Group(String, String),
    /// The summary of a folded turn.
    TurnSummary(u64, String),
    /// The summary of a folded message with its tool calls.
    AssistantSummary(usize, String),
}

/// The contents of a row.
pub enum RowView {
    Header(u64),
    Cell(int),
    Group(Seq<char>, Seq<char>),
    TurnSummary(u64, Seq<char>),
    AssistantSummary(usize, Seq<char>),
}

impl DeepView for TrajRow {
    type V = RowView;

    open spec fn deep_view(&self) -> RowView {
        match self {
            TrajRow::Header(turn) => RowView::Header(*turn),
            TrajRow::Cell(at) => RowView::Cell(*at as int),
            TrajRow::Group(title, time) => RowView::Group(title@, time@),
            TrajRow::TurnSummary(turn, s) => RowView::TurnSummary(*turn, s@),
            TrajRow::AssistantSummary(index, s) => RowView::AssistantSummary(*index, s@),
        }
    }
}

/// Row heights and gaps, in pixels.
pub const TRAJ_CELL_PX: u64 = 38;

pub const TRAJ_HEADER_PX: u64 = 44;

/// The widest that the lane of a turn header gets.
pub const TRAJ_LANE_MAX_PX: u64 = 880;

pub const TRAJ_CELL_GAP_PX: u64 = 10;

pub const TRAJ_BODY_PAD_T_PX: u64 = 8;

pub const TRAJ_BODY_PAD_B_PX: u64 = 22;

pub const TRAJ_SUMMARY_PX: u64 = 20;

pub const TRAJ_GROUP_PX: u64 = 36;

/// A kind of run of cells.
#[derive(Clone, Copy)]
pub enum Run {
    /// Cells of one turn.
    Turn(u64),
    /// Tool cells of one turn.
    ToolsOfTurn(u64),
    /// Cells of one turn that belong to no step.
    PlainOfTurn(u64),
    /// Tool cells.
    Tools,
}

/// Whether a cell belongs to no step: a user's, or a message without a step.
pub open spec fn is_plain(c: TrajCell) -> bool {
    c.kind is User || (c.kind is Message && c.step is None)
}

/// Whether a cell starts a step.
pub open spec fn is_step_head(c: TrajCell) -> bool {
    c.kind is Message && c.step is Some
}

/// Whether a cell fits a run.
pub open spec fn fits(run: Run, c: TrajCell) -> bool {
    match run {
        Run::Turn(turn) => c.turn == turn,
        Run::ToolsOfTurn(turn) => c.turn == turn && c.kind is Tool,
        Run::PlainOfTurn(turn) => c.turn == turn && is_plain(c),
        Run::Tools => c.kind is Tool,
    }
}

/// The number of cells from `at` on that fit a run.
pub open spec fn run_len(cells: Seq<TrajCell>, at: int, run: Run) -> nat
    decreases cells.len() - at,
{
    if 0 <= at < cells.len() && fits(run, cells[at]) {
        1 + run_len(cells, at + 1, run)
    } else {
        0
    }
}

/// The number of cells of the group that starts at `at`: a step with the tool
/// calls behind it, cells of the turn that belong to no step, or one tool call
/// on its own.
pub open spec fn group_len(cells: Seq<TrajCell>, at: int) -> nat {
    let c = cells[at];
    if is_step_head(c) {
        1 + run_len(cells, at + 1, Run::ToolsOfTurn(c.turn))
    } else if is_plain(c) {
        run_len(cells, at, Run::PlainOfTurn(c.turn))
    } else {
        1
    }
}

/// The times of `n` cells from `at` on, added up.
pub open spec fn time_sum(cells: Seq<TrajCell>, at: int, n: nat) -> nat
    decreases n,
{
    if n == 0 {
        0
    } else {
        time_sum(cells, at, (n - 1) as nat) + (match cells[at + n - 1].time_ms {
            Some(ms) => ms as nat,
            None => 0nat,
        })
    }
}

/// The title of a group.
pub open spec fn group_title(c: TrajCell) -> Seq<char> {
    match c.step {
        Some(step) => if c.kind is Message {
            "步骤 "@ + text::dec(step as nat)
        } else {
            "消息"@
        },
        None => "消息"@,
    }
}

/// A time of a group, or nothing for no time.
pub open spec fn group_time(ms: nat) -> Seq<char> {
    if ms > 0 {
        text::grouped(text::dec(ms)) + " 毫秒"@
    } else {
        Seq::empty()
    }
}

/// Whether no cell of the turn of `c` stands at `at`.
pub open spec fn turn_ends(cells: Seq<TrajCell>, at: int, c: TrajCell) -> bool {
    at >= cells.len() || cells[at].turn != c.turn
}

/// The space below a row: the padding of the turn behind its last row, a gap
/// elsewhere.
pub open spec fn space_below(last: bool) -> nat {
    if last {
        TRAJ_BODY_PAD_B_PX as nat
    } else {
        TRAJ_CELL_GAP_PX as nat
    }
}

/// The rows of the group of `n` cells at `at`, from its cell `from` on, each
/// with the height that it takes. A message in `folded` stands as a summary
/// for itself and the tool calls behind it.
pub open spec fn group_rows(
    cells: Seq<TrajCell>,
    folded: Set<usize>,
    at: int,
    from: int,
    n: nat,
) -> Seq<(RowView, nat)>
    decreases if from < n { n - from } else { 0 },
{
    if from >= n {
        Seq::empty()
    } else {
        let c = cells[at + from];
        let tools = run_len(cells, at + from + 1, Run::Tools);
        if c.kind is Message && tools > 0 && folded.contains(c.index) {
            seq![
                (
                    RowView::AssistantSummary(c.index, c.text@),
                    TRAJ_SUMMARY_PX as nat + space_below(turn_ends(cells, at + from + tools + 1, c)),
                ),
            ] + group_rows(cells, folded, at, from + tools + 1, n)
        } else {
            seq![
                (
                    RowView::Cell(at + from),
                    TRAJ_CELL_PX as nat + space_below(turn_ends(cells, at + from + 1, c)),
                ),
            ] + group_rows(cells, folded, at, from + 1, n)
        }
    }
}

/// The number of tool calls behind the group of `n` cells at `at` that the
/// summary of its last message stands for. A step holds its tool calls itself.
pub open spec fn summed_up(cells: Seq<TrajCell>, folded: Set<usize>, at: int, n: nat) -> nat {
    let c = cells[at + n - 1];
    if c.kind is Message && folded.contains(c.index) {
        run_len(cells, at + n, Run::ToolsOfTurn(c.turn))
    } else {
        0
    }
}

/// The header of a turn, where one is due.
pub open spec fn header_rows(c: TrajCell, last: Option<u64>) -> Seq<(RowView, nat)> {
    if last == Some(c.turn) {
        Seq::empty()
    } else {
        seq![(RowView::Header(c.turn), (TRAJ_HEADER_PX + TRAJ_BODY_PAD_T_PX) as nat)]
    }
}

/// The rows of the cells from `at` up to `end`, each with the height that it
/// takes. `last` is the turn whose header was shown last. A turn in `turns` of
/// more than one cell stands as a summary.
pub open spec fn rows_until(
    cells: Seq<TrajCell>,
    turns: Set<u64>,
    folded: Set<usize>,
    at: int,
    last: Option<u64>,
    end: int,
) -> Seq<(RowView, nat)>
    decreases if at < cells.len() { cells.len() - at } else { 0 },
{
    if at < 0 || at >= cells.len() || at >= end {
        Seq::empty()
    } else {
        let c = cells[at];
        let header = header_rows(c, last);
        let size = run_len(cells, at, Run::Turn(c.turn));
        let n = group_len(cells, at);
        if last != Some(c.turn) && turns.contains(c.turn) && size > 1 {
            header + seq![summary_row(c)] + rows_until(
                cells,
                turns,
                folded,
                at + size,
                Some(c.turn),
                end,
            )
        } else if n > 0 {
            header + seq![group_row(cells, at, n)] + group_rows(cells, folded, at, 0, n)
                + rows_until(
                cells,
                turns,
                folded,
                at + n + summed_up(cells, folded, at, n),
                Some(c.turn),
                end,
            )
        } else {
            Seq::empty()
        }
    }
}

/// The rows of the cells from `at` on, each with the height that it takes.
pub open spec fn layout(
    cells: Seq<TrajCell>,
    turns: Set<u64>,
    folded: Set<usize>,
    at: int,
    last: Option<u64>,
) -> Seq<(RowView, nat)> {
    rows_until(cells, turns, folded, at, last, cells.len() as int)
}

/// Whether the times of each group that the layout from `at` on shows add up to
/// a number of 64 bits. Those of a folded turn are not added up.
pub open spec fn times_fit(
    cells: Seq<TrajCell>,
    turns: Set<u64>,
    folded: Set<usize>,
    at: int,
    last: Option<u64>,
) -> bool
    decreases if at < cells.len() { cells.len() - at } else { 0 },
{
    if at < 0 || at >= cells.len() {
        true
    } else {
        let turn = cells[at].turn;
        let size = run_len(cells, at, Run::Turn(turn));
        let n = group_len(cells, at);
        if last != Some(turn) && turns.contains(turn) && size > 1 {
            times_fit(cells, turns, folded, at + size, Some(turn))
        } else if n > 0 {
            time_sum(cells, at, n) <= u64::MAX && times_fit(
                cells,
                turns,
                folded,
                at + n + summed_up(cells, folded, at, n),
                Some(turn),
            )
        } else {
            true
        }
    }
}

/// The heights of the first `n` rows, added up: where row `n` starts.
pub open spec fn top_of(rows: Seq<(RowView, nat)>, n: int) -> nat
    decreases n,
{
    if n <= 0 {
        0
    } else {
        top_of(rows, n - 1) + rows[n - 1].1
    }
}

/// What rows and tops show of a layout.
pub open spec fn shows(
    rows: Seq<RowView>,
    tops: Seq<u64>,
    expected: Seq<(RowView, nat)>,
) -> bool {
    &&& rows.len() == expected.len()
    &&& tops.len() == expected.len()
    &&& forall|i: int| 0 <= i < rows.len() ==> #[trigger] rows[i] == expected[i].0
    &&& forall|i: int| 0 <= i < tops.len() ==> #[trigger] tops[i] == top_of(expected, i)
}

proof fn lemma_run_bounds(cells: Seq<TrajCell>, at: int, run: Run)
    requires
        0 <= at <= cells.len(),
    ensures
        at + run_len(cells, at, run) <= cells.len(),
        forall|i: int| at <= i < at + run_len(cells, at, run) ==> fits(run, #[trigger] cells[i]),
    decreases cells.len() - at,
{
    if at < cells.len() && fits(run, cells[at]) {
        lemma_run_bounds(cells, at + 1, run);
    }
}

proof fn lemma_group_bounds(cells: Seq<TrajCell>, at: int)
    requires
        0 <= at < cells.len(),
    ensures
        1 <= group_len(cells, at),
        at + group_len(cells, at) <= cells.len(),
{
    let c = cells[at];
    lemma_run_bounds(cells, at + 1, Run::ToolsOfTurn(c.turn));
    lemma_run_bounds(cells, at, Run::PlainOfTurn(c.turn));
}

fn cell_fits(run: Run, c: &TrajCell) -> (r: bool)
    ensures
        r == fits(run, *c),
{
    match run {
        Run::Turn(turn) => c.turn == turn,
        Run::ToolsOfTurn(turn) => c.turn == turn && c.kind == TrajKind::Tool,
        Run::PlainOfTurn(turn) => c.turn == turn && (c.kind == TrajKind::User || (c.kind
            == TrajKind::Message && c.step.is_none())),
        Run::Tools => c.kind == TrajKind::Tool,
    }
}

fn count_run(cells: &[TrajCell], at: usize, run: Run) -> (r: usize)
    requires
        at <= cells@.len(),
    ensures
        r == run_len(cells@, at as int, run),
        at + r <= cells@.len(),
{
    let mut i: usize = at;
    while i < cells.len() && cell_fits(run, &cells[i])
        invariant
            at <= i <= cells@.len(),
            run_len(cells@, at as int, run) == i - at + run_len(cells@, i as int, run),
        decreases cells@.len() - i,
    {
        i = i + 1;
    }
    i - at
}

proof fn lemma_time_sum_grows(cells: Seq<TrajCell>, at: int, k: nat, n: nat)
    requires
        k <= n,
    ensures
        time_sum(cells, at, k) <= time_sum(cells, at, n),
    decreases n,
{
    if k < n {
        lemma_time_sum_grows(cells, at, k, (n - 1) as nat);
    }
}

fn add_times(cells: &[TrajCell], at: usize, n: usize) -> (r: u64)
    requires
        at + n <= cells@.len(),
        time_sum(cells@, at as int, n as nat) <= u64::MAX,
    ensures
        r == time_sum(cells@, at as int, n as nat),
{
    let mut sum: u64 = 0;
    let mut i: usize = 0;
    let total: usize = cells.len();
    while i < n
        invariant
            i <= n,
            total == cells@.len(),
            at + n <= total,
            sum == time_sum(cells@, at as int, i as nat),
            time_sum(cells@, at as int, n as nat) <= u64::MAX,
        decreases n - i,
    {
        proof {
            lemma_time_sum_grows(cells@, at as int, (i + 1) as nat, n as nat);
        }
        match cells[at + i].time_ms {
            Some(ms) => {
                sum = sum + ms;
            },
            None => {},
        }
        i = i + 1;
    }
    sum
}

proof fn lemma_top_of_prefix(a: Seq<(RowView, nat)>, b: Seq<(RowView, nat)>, n: int)
    requires
        n <= a.len(),
    ensures
        top_of(a + b, n) == top_of(a, n),
    decreases n,
{
    if n > 0 {
        lemma_top_of_prefix(a, b, n - 1);
    }
}

proof fn lemma_top_of_join(a: Seq<(RowView, nat)>, b: Seq<(RowView, nat)>, n: int)
    requires
        0 <= n <= b.len(),
    ensures
        top_of(a + b, a.len() + n) == top_of(a, a.len() as int) + top_of(b, n),
    decreases n,
{
    if n > 0 {
        lemma_top_of_join(a, b, n - 1);
    } else {
        lemma_top_of_prefix(a, b, a.len() as int);
    }
}

/// The height of a sequence of rows.
pub open spec fn height(rows: Seq<(RowView, nat)>) -> nat {
    top_of(rows, rows.len() as int)
}

proof fn lemma_height_join(a: Seq<(RowView, nat)>, b: Seq<(RowView, nat)>)
    ensures
        height(a + b) == height(a) + height(b),
{
    lemma_top_of_join(a, b, b.len() as int);
}

proof fn lemma_height_one(x: (RowView, nat))
    ensures
        height(seq![x]) == x.1,
{
    reveal_with_fuel(top_of, 2);
}

proof fn lemma_room(done: Seq<(RowView, nat)>, row: (RowView, nat), after: Seq<(RowView, nat)>)
    ensures
        done.push(row) + after == done + (seq![row] + after),
        height(done.push(row) + after) == height(done) + row.1 + height(after),
{
    lemma_height_one(row);
    lemma_height_join(done, seq![row]);
    lemma_height_join(done.push(row), after);
    assert(done.push(row) =~= done + seq![row]);
    assert(done.push(row) + after =~= done + (seq![row] + after));
}

proof fn lemma_group_height(cells: Seq<TrajCell>, folded: Set<usize>, at: int, from: int, n: nat)
    requires
        0 <= from,
    ensures
        from <= n ==> height(group_rows(cells, folded, at, from, n)) <= 60 * (n - from),
        from > n ==> height(group_rows(cells, folded, at, from, n)) == 0,
    decreases if from < n { n - from } else { 0 },
{
    if from < n {
        let c = cells[at + from];
        let tools = run_len(cells, at + from + 1, Run::Tools);
        let rows = group_rows(cells, folded, at, from, n);
        if c.kind is Message && tools > 0 && folded.contains(c.index) {
            let rest = group_rows(cells, folded, at, from + tools + 1, n);
            lemma_group_height(cells, folded, at, from + tools + 1, n);
            lemma_height_one(rows[0]);
            lemma_height_join(seq![rows[0]], rest);
            assert(rows =~= seq![rows[0]] + rest);
        } else {
            let rest = group_rows(cells, folded, at, from + 1, n);
            lemma_group_height(cells, folded, at, from + 1, n);
            lemma_height_one(rows[0]);
            lemma_height_join(seq![rows[0]], rest);
            assert(rows =~= seq![rows[0]] + rest);
        }
    }
}

/// Rows under construction: what was laid out so far, and where the next row
/// starts.
struct Build {
    rows: Vec<TrajRow>,
    tops: Vec<u64>,
    y: u64,
}

impl Build {
    spec fn holds(self, done: Seq<(RowView, nat)>) -> bool {
        &&& shows(self.rows.deep_view(), self.tops@, done)
        &&& self.y == height(done)
    }

    fn add(&mut self, row: TrajRow, advance: u64, done: Ghost<Seq<(RowView, nat)>>)
        requires
            old(self).holds(done@),
            height(done@) + advance <= u64::MAX,
        ensures
            final(self).holds(done@.push((row.deep_view(), advance as nat))),
    {
        let ghost next = done@.push((row.deep_view(), advance as nat));
        let ghost before = self.rows.deep_view();
        proof {
            assert(next =~= done@ + seq![(row.deep_view(), advance as nat)]);
            lemma_top_of_prefix(
                done@,
                seq![(row.deep_view(), advance as nat)],
                done@.len() as int,
            );
            assert forall|i: int| 0 <= i <= done@.len() implies top_of(next, i) == top_of(
                done@,
                i,
            ) by {
                lemma_top_of_prefix(done@, seq![(row.deep_view(), advance as nat)], i);
            }
        }
        self.rows.push(row);
        self.tops.push(self.y);
        self.y = self.y + advance;
        assert(self.rows.deep_view() =~= before.push(row.deep_view()));
    }
}

fn ends_turn(cells: &[TrajCell], at: usize, turn: u64) -> (r: bool)
    requires
        at <= cells@.len(),
    ensures
        r == (at >= cells@.len() || cells@[at as int].turn != turn),
{
    at >= cells.len() || cells[at].turn != turn
}

/// Lays out the cells of a group.
fn add_group(
    b: &mut Build,
    cells: &[TrajCell],
    folded: &HashSet<usize>,
    at: usize,
    n: usize,
    done: Ghost<Seq<(RowView, nat)>>,
)
    requires
        at + n <= cells@.len(),
        old(b).holds(done@),
        height(done@ + group_rows(cells@, folded@, at as int, 0, n as nat)) <= u64::MAX,
    ensures
        final(b).holds(done@ + group_rows(cells@, folded@, at as int, 0, n as nat)),
{
    let ghost whole = done@ + group_rows(cells@, folded@, at as int, 0, n as nat);
    let ghost mut part = done@;
    let mut from: usize = 0;
    let total: usize = cells.len();
    while from < n
        invariant
            total == cells@.len(),
            at + n <= total,
            at + from <= total,
            b.holds(part),
            whole == part + group_rows(cells@, folded@, at as int, from as int, n as nat),
            height(whole) <= u64::MAX,
        decreases total - from,
    {
        let c: &TrajCell = &cells[at + from];
        let tools: usize = count_run(cells, at + from + 1, Run::Tools);
        let ghost rest = group_rows(cells@, folded@, at as int, from as int, n as nat);
        if c.kind == TrajKind::Message && tools > 0 && folded.contains(&c.index) {
            let last: bool = ends_turn(cells, at + from + tools + 1, c.turn);
            let below: u64 = if last { TRAJ_BODY_PAD_B_PX } else { TRAJ_CELL_GAP_PX };
            let ghost row = rest[0];
            let ghost after = group_rows(
                cells@,
                folded@,
                at as int,
                from + tools + 1,
                n as nat,
            );
            proof {
                assert(rest =~= seq![row] + after);
                lemma_room(part, row, after);
            }
            b.add(
                TrajRow::AssistantSummary(c.index, c.text.clone()),
                TRAJ_SUMMARY_PX + below,
                Ghost(part),
            );
            proof {
                part = part.push(row);
            }
            from = from + tools + 1;
        } else {
            let last: bool = ends_turn(cells, at + from + 1, c.turn);
            let below: u64 = if last { TRAJ_BODY_PAD_B_PX } else { TRAJ_CELL_GAP_PX };
            let ghost row = rest[0];
            let ghost after = group_rows(cells@, folded@, at as int, from + 1, n as nat);
            proof {
                assert(rest =~= seq![row] + after);
                lemma_room(part, row, after);
            }
            b.add(TrajRow::Cell(at + from), TRAJ_CELL_PX + below, Ghost(part));
            proof {
                part = part.push(row);
            }
            from = from + 1;
        }
    }
    assert(whole =~= part);
}

fn time_text(ms: u64) -> (r: String)
    ensures
        r@ == group_time(ms as nat),
{
    if ms > 0 {
        text::decimal_grouped(ms).concat(" 毫秒")
    } else {
        String::new()
    }
}

fn title_text(c: &TrajCell) -> (r: String)
    ensures
        r@ == group_title(*c),
{
    match c.step {
        Some(step) => {
            if c.kind == TrajKind::Message {
                let n: String = text::decimal(step);
                text::concat2("步骤 ", n.as_str())
            } else {
                "消息".to_owned()
            }
        },
        None => "消息".to_owned(),
    }
}

/// Lays out the header of a turn, where one is due.
fn add_header(
    b: &mut Build,
    c: &TrajCell,
    last: Option<u64>,
    done: Ghost<Seq<(RowView, nat)>>,
) -> (fresh: bool)
    requires
        old(b).holds(done@),
        height(done@) + 60 <= u64::MAX,
    ensures
        fresh == (last != Some(c.turn)),
        final(b).holds(done@ + header_rows(*c, last)),
{
    let fresh: bool = match last {
        Some(turn) => turn != c.turn,
        None => true,
    };
    if fresh {
        assert(done@ + header_rows(*c, last) =~= done@.push(header_rows(*c, last)[0]));
        b.add(TrajRow::Header(c.turn), TRAJ_HEADER_PX + TRAJ_BODY_PAD_T_PX, done);
    } else {
        assert(done@ + header_rows(*c, last) =~= done@);
    }
    fresh
}

/// The number of cells of the group that starts at `at`.
fn count_group(cells: &[TrajCell], at: usize) -> (r: usize)
    requires
        at < cells@.len(),
    ensures
        r == group_len(cells@, at as int),
        1 <= r,
        at + r <= cells@.len(),
{
    proof {
        lemma_group_bounds(cells@, at as int);
    }
    let c: &TrajCell = &cells[at];
    if c.kind == TrajKind::Message && c.step.is_some() {
        1 + count_run(cells, at + 1, Run::ToolsOfTurn(c.turn))
    } else if c.kind == TrajKind::User || c.kind == TrajKind::Message {
        count_run(cells, at, Run::PlainOfTurn(c.turn))
    } else {
        1
    }
}

/// The number of tool calls that the summary at the end of a group stands for.
fn count_summed_up(cells: &[TrajCell], folded: &HashSet<usize>, at: usize, n: usize) -> (r: usize)
    requires
        1 <= n,
        at + n <= cells@.len(),
    ensures
        r == summed_up(cells@, folded@, at as int, n as nat),
        at + n + r <= cells@.len(),
{
    let total: usize = cells.len();
    assert(at + n <= total);
    let c: &TrajCell = &cells[at + n - 1];
    if c.kind == TrajKind::Message && folded.contains(&c.index) {
        count_run(cells, at + n, Run::ToolsOfTurn(c.turn))
    } else {
        0
    }
}

/// The header of the group of `n` cells at `at`.
pub open spec fn group_row(cells: Seq<TrajCell>, at: int, n: nat) -> (RowView, nat) {
    (
        RowView::Group(group_title(cells[at]), group_time(time_sum(cells, at, n))),
        (TRAJ_GROUP_PX + TRAJ_CELL_GAP_PX) as nat,
    )
}

/// Lays out the group of `n` cells at `at`, header first.
fn add_titled_group(
    b: &mut Build,
    cells: &[TrajCell],
    folded: &HashSet<usize>,
    at: usize,
    n: usize,
    done: Ghost<Seq<(RowView, nat)>>,
)
    requires
        1 <= n,
        at + n <= cells@.len(),
        time_sum(cells@, at as int, n as nat) <= u64::MAX,
        old(b).holds(done@),
        height(
            done@.push(group_row(cells@, at as int, n as nat)) + group_rows(
                cells@,
                folded@,
                at as int,
                0,
                n as nat,
            ),
        ) <= u64::MAX,
    ensures
        final(b).holds(
            done@.push(group_row(cells@, at as int, n as nat)) + group_rows(
                cells@,
                folded@,
                at as int,
                0,
                n as nat,
            ),
        ),
{
    let ms: u64 = add_times(cells, at, n);
    let title: String = title_text(&cells[at]);
    let time: String = time_text(ms);
    let ghost row = group_row(cells@, at as int, n as nat);
    proof {
        lemma_room(done@, row, group_rows(cells@, folded@, at as int, 0, n as nat));
    }
    b.add(TrajRow::Group(title, time), TRAJ_GROUP_PX + TRAJ_CELL_GAP_PX, done);
    add_group(b, cells, folded, at, n, Ghost(done@.push(row)));
}

/// Lays out a folded turn.
fn add_summary(b: &mut Build, c: &TrajCell, done: Ghost<Seq<(RowView, nat)>>)
    requires
        old(b).holds(done@),
        height(done@) + 60 <= u64::MAX,
    ensures
        final(b).holds(done@.push(summary_row(*c))),
{
    b.add(
        TrajRow::TurnSummary(c.turn, c.text.clone()),
        TRAJ_SUMMARY_PX + TRAJ_BODY_PAD_B_PX,
        done,
    );
}

/// The summary of a folded turn that starts with `c`.
pub open spec fn summary_row(c: TrajCell) -> (RowView, nat) {
    (RowView::TurnSummary(c.turn, c.text@), (TRAJ_SUMMARY_PX + TRAJ_BODY_PAD_B_PX) as nat)
}

/// The rows of the ledger and where each of them starts.
pub fn traj_layout(
    cells: &[TrajCell],
    collapsed_turns: &HashSet<u64>,
    collapsed_assistants: &HashSet<usize>,
) -> (r: (Vec<TrajRow>, Vec<u64>))
    requires
        cells@.len() <= 0xff_ffff_ffff_ffff,
        times_fit(cells@, collapsed_turns@, collapsed_assistants@, 0, None),
    ensures
        shows(
            r.0.deep_view(),
            r.1@,
            layout(cells@, collapsed_turns@, collapsed_assistants@, 0, None),
        ),
{
    let ghost turns = collapsed_turns@;
    let ghost folded = collapsed_assistants@;
    let ghost whole = layout(cells@, turns, folded, 0, None);
    let ghost mut part: Seq<(RowView, nat)> = Seq::empty();
    let mut b: Build = Build { rows: Vec::new(), tops: Vec::new(), y: 0 };
    let mut last: Option<u64> = None;
    let mut at: usize = 0;
    assert(whole =~= part + whole);
    while at < cells.len()
        invariant
            at <= cells@.len(),
            cells@.len() <= 0xff_ffff_ffff_ffff,
            turns == collapsed_turns@,
            folded == collapsed_assistants@,
            b.holds(part),
            height(part) <= 160 * at,
            whole == part + layout(cells@, turns, folded, at as int, last),
            times_fit(cells@, turns, folded, at as int, last),
        decreases cells@.len() - at,
    {
        let c: &TrajCell = &cells[at];
        let ghost start = part;
        let ghost rest = layout(cells@, turns, folded, at as int, last);
        let ghost header = header_rows(*c, last);
        proof {
            lemma_header_height(*c, last);
            lemma_height_join(part, header);
        }
        let fresh: bool = add_header(&mut b, c, last, Ghost(part));
        proof {
            part = start + header;
        }
        let n: usize = count_group(cells, at);
        let mut size: usize = 0;
        if fresh && collapsed_turns.contains(&c.turn) {
            size = count_run(cells, at, Run::Turn(c.turn));
        }
        if size > 1 {
            let ghost after = layout(cells@, turns, folded, at + size, Some(c.turn));
            proof {
                lemma_room(part, summary_row(*c), after);
                lemma_room(part, summary_row(*c), Seq::empty());
                assert(part.push(summary_row(*c)) + Seq::empty() =~= part.push(summary_row(*c)));
                assert(rest == header + seq![summary_row(*c)] + after);
                assert(whole =~= part.push(summary_row(*c)) + after);
            }
            add_summary(&mut b, c, Ghost(part));
            proof {
                part = part.push(summary_row(*c));
            }
            at = at + size;
        } else {
            let ghost row = group_row(cells@, at as int, n as nat);
            let ghost group = group_rows(cells@, folded, at as int, 0, n as nat);
            let hidden: usize = count_summed_up(cells, collapsed_assistants, at, n);
            let ghost after = layout(cells@, turns, folded, at + n + hidden, Some(c.turn));
            proof {
                lemma_room(part, row, group);
                lemma_group_height(cells@, folded, at as int, 0, n as nat);
                assert(rest == header + seq![row] + group + after);
                assert(whole =~= part.push(row) + group + after);
            }
            add_titled_group(&mut b, cells, collapsed_assistants, at, n, Ghost(part));
            proof {
                part = part.push(row) + group;
            }
            at = at + n + hidden;
        }
        last = Some(c.turn);
    }
    assert(whole =~= part);
    (b.rows, b.tops)
}

proof fn lemma_header_height(c: TrajCell, last: Option<u64>)
    ensures
        height(header_rows(c, last)) <= 52,
{
    if header_rows(c, last).len() > 0 {
        lemma_height_one(header_rows(c, last)[0]);
        assert(header_rows(c, last) =~= seq![header_rows(c, last)[0]]);
    }
}

// ---------------------------------------------------------------------------
// laws
// ---------------------------------------------------------------------------

/// Whether every row takes some height.
pub open spec fn all_tall(rows: Seq<(RowView, nat)>) -> bool {
    forall|i: int| 0 <= i < rows.len() ==> (#[trigger] rows[i]).1 > 0
}

proof fn lemma_group_tall(cells: Seq<TrajCell>, folded: Set<usize>, at: int, from: int, n: nat)
    ensures
        all_tall(group_rows(cells, folded, at, from, n)),
    decreases if from < n { n - from } else { 0 },
{
    if from < n {
        let tools = run_len(cells, at + from + 1, Run::Tools);
        lemma_group_tall(cells, folded, at, from + tools + 1, n);
        lemma_group_tall(cells, folded, at, from + 1, n);
    }
}

proof fn lemma_layout_tall(
    cells: Seq<TrajCell>,
    turns: Set<u64>,
    folded: Set<usize>,
    at: int,
    last: Option<u64>,
)
    ensures
        all_tall(layout(cells, turns, folded, at, last)),
    decreases if at < cells.len() { cells.len() - at } else { 0 },
{
    if 0 <= at < cells.len() {
        let c = cells[at];
        let size = run_len(cells, at, Run::Turn(c.turn));
        let n = group_len(cells, at);
        lemma_group_tall(cells, folded, at, 0, n);
        if size > 1 {
            lemma_layout_tall(cells, turns, folded, at + size, Some(c.turn));
        }
        if n > 0 {
            let more = summed_up(cells, folded, at, n);
            lemma_layout_tall(cells, turns, folded, at + n + more, Some(c.turn));
        }
    }
}

proof fn lemma_tops_grow(rows: Seq<(RowView, nat)>, i: int, j: int)
    requires
        all_tall(rows),
        0 <= i < j <= rows.len(),
    ensures
        top_of(rows, i) < top_of(rows, j),
    decreases j - i,
{
    assert(rows[j - 1].1 > 0);
    if i < j - 1 {
        lemma_tops_grow(rows, i, j - 1);
    }
}

/// The first row starts at the top, and every row starts below the one before
/// it.
pub proof fn rows_follow_one_another(
    cells: Seq<TrajCell>,
    turns: Set<u64>,
    folded: Set<usize>,
    i: int,
    j: int,
)
    requires
        0 <= i < j < layout(cells, turns, folded, 0, None).len(),
    ensures
        top_of(layout(cells, turns, folded, 0, None), 0) == 0,
        top_of(layout(cells, turns, folded, 0, None), i) < top_of(
            layout(cells, turns, folded, 0, None),
            j,
        ),
{
    lemma_layout_tall(cells, turns, folded, 0, None);
    lemma_tops_grow(layout(cells, turns, folded, 0, None), i, j);
}

/// The positions of the cells that rows show, in order.
pub open spec fn cells_shown(rows: Seq<(RowView, nat)>) -> Seq<int>
    decreases rows.len(),
{
    if rows.len() == 0 {
        Seq::empty()
    } else {
        match rows.last().0 {
            RowView::Cell(at) => cells_shown(rows.drop_last()).push(at),
            _ => cells_shown(rows.drop_last()),
        }
    }
}

proof fn lemma_shown_join(a: Seq<(RowView, nat)>, b: Seq<(RowView, nat)>)
    ensures
        cells_shown(a + b) == cells_shown(a) + cells_shown(b),
    decreases b.len(),
{
    if b.len() == 0 {
        assert(a + b =~= a);
        assert(cells_shown(a) + cells_shown(b) =~= cells_shown(a));
    } else {
        assert((a + b).drop_last() =~= a + b.drop_last());
        lemma_shown_join(a, b.drop_last());
        assert(cells_shown(a + b) =~= cells_shown(a) + cells_shown(b));
    }
}

proof fn lemma_shown_one(x: (RowView, nat))
    ensures
        cells_shown(seq![x]) == (match x.0 {
            RowView::Cell(at) => seq![at],
            _ => Seq::<int>::empty(),
        }),
{
    reveal_with_fuel(cells_shown, 2);
    assert(seq![x].drop_last() =~= Seq::<(RowView, nat)>::empty());
    assert(cells_shown(seq![x]) =~= (match x.0 {
        RowView::Cell(at) => seq![at],
        _ => Seq::<int>::empty(),
    }));
}

/// The numbers from `a` on, `n` of them.
pub open spec fn count_up(a: int, n: nat) -> Seq<int> {
    Seq::new(n, |i: int| a + i)
}

proof fn lemma_group_shows(cells: Seq<TrajCell>, at: int, from: int, n: nat)
    requires
        0 <= from <= n,
    ensures
        cells_shown(group_rows(cells, Set::empty(), at, from, n)) == count_up(
            at + from,
            (n - from) as nat,
        ),
    decreases n - from,
{
    let rows = group_rows(cells, Set::empty(), at, from, n);
    if from < n {
        lemma_group_shows(cells, at, from + 1, n);
        let rest = group_rows(cells, Set::empty(), at, from + 1, n);
        lemma_shown_one(rows[0]);
        lemma_shown_join(seq![rows[0]], rest);
        assert(rows =~= seq![rows[0]] + rest);
    }
    assert(cells_shown(rows) =~= count_up(at + from, (n - from) as nat));
}

#[verifier::rlimit(40)]
#[verifier::spinoff_prover]
proof fn lemma_layout_shows(cells: Seq<TrajCell>, at: int, last: Option<u64>)
    requires
        0 <= at <= cells.len(),
    ensures
        cells_shown(layout(cells, Set::empty(), Set::empty(), at, last)) == count_up(
            at,
            (cells.len() - at) as nat,
        ),
    decreases cells.len() - at,
{
    let rows = layout(cells, Set::empty(), Set::empty(), at, last);
    if at < cells.len() {
        let c = cells[at];
        let n = group_len(cells, at);
        lemma_group_bounds(cells, at);
        assert(summed_up(cells, Set::empty(), at, n) == 0);
        lemma_layout_shows(cells, at + n, Some(c.turn));
        lemma_group_shows(cells, at, 0, n);
        let header = header_rows(c, last);
        let row = group_row(cells, at, n);
        let group = group_rows(cells, Set::empty(), at, 0, n);
        let rest = layout(cells, Set::empty(), Set::empty(), at + n, Some(c.turn));
        lemma_shown_one((RowView::Header(c.turn), (TRAJ_HEADER_PX + TRAJ_BODY_PAD_T_PX) as nat));
        lemma_shown_one(row);
        lemma_shown_join(header, seq![row]);
        lemma_shown_join(header + seq![row], group);
        lemma_shown_join(header + seq![row] + group, rest);
        assert(rows == header + seq![row] + group + rest);
    }
    assert(cells_shown(rows) =~= count_up(at, (cells.len() - at) as nat));
}

/// A group stays within its turn, and so does what its summary stands for.
proof fn lemma_group_in_turn(cells: Seq<TrajCell>, folded: Set<usize>, at: int)
    requires
        0 <= at < cells.len(),
    ensures
        ({
            let n = group_len(cells, at);
            let end = at + n + summed_up(cells, folded, at, n);
            &&& 1 <= n
            &&& end <= cells.len()
            &&& forall|i: int| at <= i < end ==> (#[trigger] cells[i]).turn == cells[at].turn
        }),
{
    let c = cells[at];
    let n = group_len(cells, at);
    lemma_group_bounds(cells, at);
    lemma_run_bounds(cells, at + 1, Run::ToolsOfTurn(c.turn));
    lemma_run_bounds(cells, at, Run::PlainOfTurn(c.turn));
    assert forall|i: int| at <= i < at + n implies (#[trigger] cells[i]).turn == c.turn by {
        if is_step_head(c) {
            assert(i == at || fits(Run::ToolsOfTurn(c.turn), cells[i]));
        } else if is_plain(c) {
            assert(fits(Run::PlainOfTurn(c.turn), cells[i]));
        }
    }
    let d = cells[at + n - 1];
    assert(d.turn == c.turn);
    lemma_run_bounds(cells, at + n, Run::ToolsOfTurn(d.turn));
    let end = at + n + summed_up(cells, folded, at, n);
    assert forall|i: int| at <= i < end implies (#[trigger] cells[i]).turn == c.turn by {
        if i >= at + n {
            assert(fits(Run::ToolsOfTurn(d.turn), cells[i]));
        }
    }
}

/// Whether the cells from `at` to `end` are a run of a turn as long as it can
/// be.
pub open spec fn is_turn_run(cells: Seq<TrajCell>, at: int, end: int) -> bool {
    &&& 0 <= at < end <= cells.len()
    &&& at == 0 || cells[at - 1].turn != cells[at].turn
    &&& end == cells.len() || cells[end].turn != cells[at].turn
    &&& forall|i: int| at <= i < end ==> (#[trigger] cells[i]).turn == cells[at].turn
}

/// The turn whose header was shown last where the cell at `at` is laid out.
pub open spec fn turn_before(cells: Seq<TrajCell>, at: int) -> Option<u64> {
    if at <= 0 {
        None
    } else {
        Some(cells[at - 1].turn)
    }
}

proof fn lemma_run_end(cells: Seq<TrajCell>, at: int, end: int, turn: u64)
    requires
        0 <= at <= end <= cells.len(),
        forall|i: int| at <= i < end ==> (#[trigger] cells[i]).turn == turn,
        end == cells.len() || cells[end].turn != turn,
    ensures
        run_len(cells, at, Run::Turn(turn)) == end - at,
    decreases end - at,
{
    if at < end {
        lemma_run_end(cells, at + 1, end, turn);
    }
}

/// Whether a turn ends in front of `end`.
pub open spec fn at_boundary(cells: Seq<TrajCell>, end: int) -> bool {
    0 <= end <= cells.len() && (end == 0 || end == cells.len() || cells[end].turn != cells[end
        - 1].turn)
}

/// What comes next behind the summary or the group at `at`, and that it does
/// not go beyond the end of a turn.
proof fn lemma_next_in_turn(cells: Seq<TrajCell>, folded: Set<usize>, at: int, end: int)
    requires
        0 <= at < end,
        at_boundary(cells, end),
    ensures
        ({
            let c = cells[at];
            let size = run_len(cells, at, Run::Turn(c.turn));
            let n = group_len(cells, at);
            let next = at + n + summed_up(cells, folded, at, n);
            &&& 1 <= size
            &&& at + size <= end
            &&& at < next <= end
            &&& cells[at + size - 1].turn == c.turn
            &&& cells[next - 1].turn == c.turn
        }),
{
    let c = cells[at];
    lemma_run_bounds(cells, at, Run::Turn(c.turn));
    let size = run_len(cells, at, Run::Turn(c.turn));
    assert(fits(Run::Turn(c.turn), cells[at + size - 1]));
    if at + size > end {
        assert(fits(Run::Turn(c.turn), cells[end]));
        assert(fits(Run::Turn(c.turn), cells[end - 1]));
    }
    lemma_group_in_turn(cells, folded, at);
    let n = group_len(cells, at);
    let next = at + n + summed_up(cells, folded, at, n);
    if next > end {
        assert(cells[end].turn == c.turn);
        assert(cells[end - 1].turn == c.turn);
    }
}

/// The rows up to the end of a turn, and the rows behind it.
proof fn lemma_rows_split(
    cells: Seq<TrajCell>,
    turns: Set<u64>,
    folded: Set<usize>,
    at: int,
    last: Option<u64>,
    end: int,
    until: int,
)
    requires
        0 <= at <= end <= until,
        at == end ==> last == turn_before(cells, end),
        at_boundary(cells, end),
    ensures
        rows_until(cells, turns, folded, at, last, until) == rows_until(
            cells,
            turns,
            folded,
            at,
            last,
            end,
        ) + rows_until(cells, turns, folded, end, turn_before(cells, end), until),
    decreases end - at,
{
    let whole = rows_until(cells, turns, folded, at, last, until);
    let front = rows_until(cells, turns, folded, at, last, end);
    let back = rows_until(cells, turns, folded, end, turn_before(cells, end), until);
    if at == end {
        assert(whole =~= front + back);
    } else {
        let c = cells[at];
        let size = run_len(cells, at, Run::Turn(c.turn));
        let n = group_len(cells, at);
        let more = summed_up(cells, folded, at, n);
        lemma_next_in_turn(cells, folded, at, end);
        let next = if last != Some(c.turn) && turns.contains(c.turn) && size > 1 {
            at + size
        } else {
            at + n + more
        };
        lemma_rows_split(cells, turns, folded, next, Some(c.turn), end, until);
        assert(whole =~= front + back);
    }
}

/// The rows of the cells from `at` to `end`, where a turn starts at `at`.
pub open spec fn run_rows(
    cells: Seq<TrajCell>,
    turns: Set<u64>,
    folded: Set<usize>,
    at: int,
    end: int,
) -> Seq<(RowView, nat)> {
    rows_until(cells, turns, folded, at, turn_before(cells, at), end)
}

/// The headers among rows.
pub open spec fn headers_in(rows: Seq<(RowView, nat)>) -> Seq<u64>
    decreases rows.len(),
{
    if rows.len() == 0 {
        Seq::empty()
    } else {
        match rows.last().0 {
            RowView::Header(turn) => headers_in(rows.drop_last()).push(turn),
            _ => headers_in(rows.drop_last()),
        }
    }
}

proof fn lemma_headers_join(a: Seq<(RowView, nat)>, b: Seq<(RowView, nat)>)
    ensures
        headers_in(a + b) == headers_in(a) + headers_in(b),
    decreases b.len(),
{
    if b.len() == 0 {
        assert(a + b =~= a);
        assert(headers_in(a) + headers_in(b) =~= headers_in(a));
    } else {
        assert((a + b).drop_last() =~= a + b.drop_last());
        lemma_headers_join(a, b.drop_last());
        assert(headers_in(a + b) =~= headers_in(a) + headers_in(b));
    }
}

proof fn lemma_no_header(rows: Seq<(RowView, nat)>)
    requires
        forall|i: int| 0 <= i < rows.len() ==> !((#[trigger] rows[i]).0 is Header),
    ensures
        headers_in(rows) == Seq::<u64>::empty(),
    decreases rows.len(),
{
    if rows.len() > 0 {
        let head = rows.drop_last();
        assert forall|i: int| 0 <= i < head.len() implies !((#[trigger] head[i]).0 is Header) by {
            assert(head[i] == rows[i]);
        }
        lemma_no_header(head);
        assert(!(rows[rows.len() - 1].0 is Header));
    }
}

proof fn lemma_group_headless(cells: Seq<TrajCell>, folded: Set<usize>, at: int, from: int, n: nat)
    ensures
        forall|i: int|
            0 <= i < group_rows(cells, folded, at, from, n).len() ==> !((
            #[trigger] group_rows(cells, folded, at, from, n)[i]).0 is Header),
    decreases if from < n { n - from } else { 0 },
{
    if from < n {
        let tools = run_len(cells, at + from + 1, Run::Tools);
        lemma_group_headless(cells, folded, at, from + tools + 1, n);
        lemma_group_headless(cells, folded, at, from + 1, n);
    }
}

/// Behind its header, a turn has no other.
proof fn lemma_one_header(
    cells: Seq<TrajCell>,
    turns: Set<u64>,
    folded: Set<usize>,
    at: int,
    last: Option<u64>,
    end: int,
)
    requires
        0 <= at <= end <= cells.len(),
        at_boundary(cells, end),
        forall|i: int| at <= i < end ==> (#[trigger] cells[i]).turn == cells[at].turn,
    ensures
        headers_in(rows_until(cells, turns, folded, at, last, end)) == (if at < end && last != Some(
            cells[at].turn,
        ) {
            seq![cells[at].turn]
        } else {
            Seq::empty()
        }),
    decreases end - at,
{
    reveal_with_fuel(headers_in, 2);
    if at < end {
        let c = cells[at];
        let size = run_len(cells, at, Run::Turn(c.turn));
        let n = group_len(cells, at);
        let more = summed_up(cells, folded, at, n);
        lemma_next_in_turn(cells, folded, at, end);
        let header = header_rows(c, last);
        assert(headers_in(header) =~= (if last != Some(c.turn) {
            seq![c.turn]
        } else {
            Seq::empty()
        })) by {
            if last != Some(c.turn) {
                assert(header.drop_last() =~= Seq::empty());
            }
        }
        if last != Some(c.turn) && turns.contains(c.turn) && size > 1 {
            let rest = rows_until(cells, turns, folded, at + size, Some(c.turn), end);
            lemma_one_header(cells, turns, folded, at + size, Some(c.turn), end);
            let one = seq![summary_row(c)];
            lemma_no_header(one);
            lemma_headers_join(header, one);
            lemma_headers_join(header + one, rest);
        } else {
            let rest = rows_until(cells, turns, folded, at + n + more, Some(c.turn), end);
            lemma_one_header(cells, turns, folded, at + n + more, Some(c.turn), end);
            let one = seq![group_row(cells, at, n)];
            let group = group_rows(cells, folded, at, 0, n);
            lemma_no_header(one);
            lemma_group_headless(cells, folded, at, 0, n);
            lemma_no_header(group);
            lemma_headers_join(header, one);
            lemma_headers_join(header + one, group);
            lemma_headers_join(header + one + group, rest);
        }
        let rows = rows_until(cells, turns, folded, at, last, end);
        assert(headers_in(rows) =~= headers_in(header));
    } else {
        assert(rows_until(cells, turns, folded, at, last, end) =~= Seq::empty());
    }
}

/// The rows of the ledger are those in front of a turn, those of the turn and
/// those behind it. The rows of a turn start with its header and hold no other.
/// Folded, a turn of more than one cell is its header and its summary; one of
/// a single cell is what it is unfolded.
pub proof fn folded_turn_is_one_summary(
    cells: Seq<TrajCell>,
    turns: Set<u64>,
    folded: Set<usize>,
    at: int,
    end: int,
)
    requires
        is_turn_run(cells, at, end),
    ensures
        layout(cells, turns, folded, 0, None) == run_rows(cells, turns, folded, 0, at) + run_rows(
            cells,
            turns,
            folded,
            at,
            end,
        ) + layout(cells, turns, folded, end, turn_before(cells, end)),
        headers_in(run_rows(cells, turns, folded, at, end)) == seq![cells[at].turn],
        turns.contains(cells[at].turn) && end - at > 1 ==> run_rows(cells, turns, folded, at, end)
            == header_rows(cells[at], turn_before(cells, at)) + seq![summary_row(cells[at])],
        end - at == 1 ==> run_rows(cells, turns, folded, at, end) == run_rows(
            cells,
            turns.remove(cells[at].turn),
            folded,
            at,
            end,
        ),
{
    let c = cells[at];
    let len = cells.len() as int;
    lemma_rows_split(cells, turns, folded, 0, None, at, len);
    lemma_rows_split(cells, turns, folded, at, turn_before(cells, at), end, len);
    assert(layout(cells, turns, folded, 0, None) =~= run_rows(cells, turns, folded, 0, at)
        + run_rows(cells, turns, folded, at, end) + layout(
        cells,
        turns,
        folded,
        end,
        turn_before(cells, end),
    ));
    lemma_one_header(cells, turns, folded, at, turn_before(cells, at), end);
    lemma_run_end(cells, at, end, c.turn);
    lemma_next_in_turn(cells, folded, at, end);
    if turns.contains(c.turn) && end - at > 1 {
        let rest = rows_until(cells, turns, folded, end, Some(c.turn), end);
        assert(rest =~= Seq::empty());
        let two = header_rows(c, turn_before(cells, at)) + seq![summary_row(c)];
        assert(two + rest =~= two);
    }
    if end - at == 1 {
        let n = group_len(cells, at);
        let next = at + n + summed_up(cells, folded, at, n);
        assert(next == end);
        assert(rows_until(cells, turns, folded, end, Some(c.turn), end) =~= Seq::empty());
        let fewer = turns.remove(c.turn);
        assert(rows_until(cells, fewer, folded, end, Some(c.turn), end) =~= Seq::empty());
    }
}

/// Folding a turn that no cell belongs to changes nothing.
pub proof fn unknown_turn_changes_nothing(
    cells: Seq<TrajCell>,
    turns: Set<u64>,
    folded: Set<usize>,
    turn: u64,
)
    requires
        forall|i: int| 0 <= i < cells.len() ==> (#[trigger] cells[i]).turn != turn,
    ensures
        layout(cells, turns.insert(turn), folded, 0, None) == layout(cells, turns, folded, 0, None),
{
    lemma_unknown_turn(cells, turns, folded, turn, 0, None);
}

proof fn lemma_unknown_turn(
    cells: Seq<TrajCell>,
    turns: Set<u64>,
    folded: Set<usize>,
    turn: u64,
    at: int,
    last: Option<u64>,
)
    requires
        0 <= at,
        forall|i: int| 0 <= i < cells.len() ==> (#[trigger] cells[i]).turn != turn,
    ensures
        layout(cells, turns.insert(turn), folded, at, last) == layout(
            cells,
            turns,
            folded,
            at,
            last,
        ),
    decreases if at < cells.len() { cells.len() - at } else { 0 },
{
    if at < cells.len() {
        let c = cells[at];
        assert(c.turn != turn);
        let size = run_len(cells, at, Run::Turn(c.turn));
        let n = group_len(cells, at);
        if size > 1 {
            lemma_unknown_turn(cells, turns, folded, turn, at + size, Some(c.turn));
        }
        if n > 0 {
            let more = summed_up(cells, folded, at, n);
            lemma_unknown_turn(cells, turns, folded, turn, at + n + more, Some(c.turn));
        }
    }
}

/// A folded message and the tool calls behind it in its turn are one summary:
/// the rows go on behind those calls.
pub proof fn folded_message_is_one_summary(cells: Seq<TrajCell>, folded: Set<usize>, at: int)
    requires
        0 <= at < cells.len(),
        cells[at].kind is Message,
        folded.contains(cells[at].index),
        at == cells.len() - 1 || !is_plain(cells[at + 1]),
        run_len(cells, at + 1, Run::ToolsOfTurn(cells[at].turn)) > 0,
    ensures
        ({
            let n = group_len(cells, at);
            &&& group_rows(cells, folded, at, 0, n).len() == 1
            &&& group_rows(cells, folded, at, 0, n)[0].0 == RowView::AssistantSummary(
                cells[at].index,
                cells[at].text@,
            )
            &&& n + summed_up(cells, folded, at, n) == 1 + run_len(
                cells,
                at + 1,
                Run::ToolsOfTurn(cells[at].turn),
            )
        }),
{
    let c = cells[at];
    let run = Run::ToolsOfTurn(c.turn);
    let same = run_len(cells, at + 1, run);
    lemma_run_bounds(cells, at + 1, run);
    lemma_tools_of_turn(cells, at + 1, c.turn);
    let n = group_len(cells, at);
    if c.step is Some {
        assert(n == 1 + same);
        let last = cells[at + n - 1];
        assert(fits(run, last));
    } else {
        assert(fits(run, cells[at + 1]));
        assert(run_len(cells, at + 1, Run::PlainOfTurn(c.turn)) == 0);
        assert(n == 1);
    }
    let tools = run_len(cells, at + 1, Run::Tools);
    assert(group_rows(cells, folded, at, (tools + 1) as int, n) =~= Seq::empty());
}

proof fn lemma_tools_of_turn(cells: Seq<TrajCell>, at: int, turn: u64)
    requires
        0 <= at <= cells.len(),
    ensures
        run_len(cells, at, Run::ToolsOfTurn(turn)) <= run_len(cells, at, Run::Tools),
    decreases cells.len() - at,
{
    if at < cells.len() {
        lemma_tools_of_turn(cells, at + 1, turn);
    }
}

/// With nothing folded, the ledger shows every cell once, in order.
pub proof fn unfolded_ledger_shows_every_cell(cells: Seq<TrajCell>)
    ensures
        cells_shown(layout(cells, Set::empty(), Set::empty(), 0, None)) == count_up(0, cells.len()),
{
    lemma_layout_shows(cells, 0, None);
}

// ---------------------------------------------------------------------------
// laws of groups and rows
// ---------------------------------------------------------------------------

/// A run goes on as long as its cells fit, and ends before the first that does
/// not.
pub proof fn run_is_as_long_as_it_fits(cells: Seq<TrajCell>, at: int, run: Run, i: int)
    requires
        0 <= at <= cells.len(),
    ensures
        at + run_len(cells, at, run) <= cells.len(),
        at <= i < at + run_len(cells, at, run) ==> fits(run, cells[i]),
        at + run_len(cells, at, run) < cells.len() ==> !fits(
            run,
            cells[at + run_len(cells, at, run)],
        ),
    decreases cells.len() - at,
{
    if at < cells.len() && fits(run, cells[at]) {
        run_is_as_long_as_it_fits(cells, at + 1, run, i);
    }
}

/// A step is a group with the tool calls that follow it in its turn; messages
/// without a step stand together; neither takes in less than it can.
pub proof fn group_holds_what_belongs_together(cells: Seq<TrajCell>, at: int, i: int)
    requires
        0 <= at < cells.len(),
    ensures
        ({
            let c = cells[at];
            let end = at + group_len(cells, at);
            &&& at < end <= cells.len()
            &&& c.kind is Message && c.step is Some && at < i < end ==> cells[i].kind is Tool
                && cells[i].turn == c.turn
            &&& c.kind is Message && c.step is Some && end < cells.len() ==> !(cells[end].kind is Tool)
                || cells[end].turn != c.turn
            &&& (c.kind is User || c.step is None && !(c.kind is Tool)) && at <= i < end ==> !(
            cells[i].kind is Tool) && cells[i].turn == c.turn
            &&& (c.kind is User || c.step is None && !(c.kind is Tool)) && end < cells.len()
                && cells[end].turn == c.turn ==> cells[end].kind is Tool || (cells[end].kind is Message
                && cells[end].step is Some)
            &&& c.kind is Tool ==> end == at + 1
        }),
{
    let c = cells[at];
    if is_step_head(c) {
        run_is_as_long_as_it_fits(cells, at + 1, Run::ToolsOfTurn(c.turn), i);
    } else if is_plain(c) {
        run_is_as_long_as_it_fits(cells, at, Run::PlainOfTurn(c.turn), i);
    }
}

/// The time of a group is that of its cells together: of one cell its own, of
/// two stretches the sum of theirs.
pub proof fn group_time_adds_up(cells: Seq<TrajCell>, at: int, n: nat, m: nat)
    ensures
        time_sum(cells, at, n + m) == time_sum(cells, at, n) + time_sum(cells, at + n, m),
        cells[at].time_ms matches Some(ms) ==> time_sum(cells, at, 1) == ms,
        cells[at].time_ms is None ==> time_sum(cells, at, 1) == 0,
    decreases m,
{
    reveal_with_fuel(time_sum, 2);
    if m > 0 {
        group_time_adds_up(cells, at, n, (m - 1) as nat);
        assert(time_sum(cells, at, n + m) == time_sum(cells, at, (n + m - 1) as nat) + (
        match cells[at + n + m - 1].time_ms {
            Some(ms) => ms as nat,
            None => 0nat,
        }));
    }
}

/// The head of a group names the step and, where it took any, the time of its
/// cells together.
pub proof fn group_head_names_its_step(cells: Seq<TrajCell>, at: int, n: nat)
    ensures
        ({
            let head = group_row(cells, at, n).0;
            &&& head is Group
            &&& cells[at].kind is Message && cells[at].step is Some ==> text::finishes(
                head->Group_0,
                text::dec(cells[at].step->0 as nat),
            ) && text::begins(head->Group_0, "步骤 "@)
            &&& cells[at].step is None ==> head->Group_0 == "消息"@
            &&& time_sum(cells, at, n) == 0 <==> head->Group_1.len() == 0
            &&& time_sum(cells, at, n) > 0 ==> head->Group_1 == text::grouped(
                text::dec(time_sum(cells, at, n)),
            ) + " 毫秒"@
        }),
{
    reveal_strlit(" 毫秒");
    if let Some(step) = cells[at].step {
        let t = "步骤 "@ + text::dec(step as nat);
        assert(t.skip(t.len() - text::dec(step as nat).len()) =~= text::dec(step as nat));
        assert(t.take("步骤 "@.len() as int) =~= "步骤 "@);
    }
}

/// With nothing folded every cell of a group has its own row, in order, that is
/// as high as a cell with the space below it: more below the last of a turn.
pub proof fn unfolded_group_has_a_row_per_cell(
    cells: Seq<TrajCell>,
    at: int,
    from: int,
    n: nat,
    i: int,
)
    requires
        0 <= from <= i < n,
        0 <= at,
    ensures
        ({
            let rows = group_rows(cells, Set::empty(), at, from, n);
            let here = at + i;
            let ends = here + 1 >= cells.len() || cells[here + 1].turn != cells[here].turn;
            &&& rows.len() == n - from
            &&& rows[i - from].0 == RowView::Cell(here)
            &&& rows[i - from].1 == 38 + (if ends {
                22int
            } else {
                10
            })
        }),
    decreases n - from,
{
    let rest = group_rows(cells, Set::empty(), at, from + 1, n);
    if from + 1 < n {
        if from < i {
            unfolded_group_has_a_row_per_cell(cells, at, from + 1, n, i);
        } else {
            unfolded_group_has_a_row_per_cell(cells, at, from + 1, n, from + 1);
        }
    } else {
        assert(rest.len() == 0);
    }
}

/// A folded turn of several cells is its header and the text of its first cell.
pub proof fn folded_turn_says_its_first_text(
    cells: Seq<TrajCell>,
    turns: Set<u64>,
    folded: Set<usize>,
    at: int,
    end: int,
)
    requires
        is_turn_run(cells, at, end),
        turns.contains(cells[at].turn),
        end - at > 1,
    ensures
        ({
            let rows = run_rows(cells, turns, folded, at, end);
            &&& rows.len() == 2
            &&& rows[0].0 == RowView::Header(cells[at].turn)
            &&& rows[0].1 == 52
            &&& rows[1].0 == RowView::TurnSummary(cells[at].turn, cells[at].text@)
            &&& rows[1].1 == 42
        }),
{
    folded_turn_is_one_summary(cells, turns, folded, at, end);
}

/// Every row stands where the one before it ends.
pub proof fn row_stands_below_the_one_before(rows: Seq<(RowView, nat)>, i: int)
    requires
        0 <= i < rows.len(),
    ensures
        top_of(rows, 0) == 0,
        top_of(rows, i + 1) == top_of(rows, i) + rows[i].1,
        i == rows.len() - 1 ==> height(rows) == top_of(rows, i) + rows[i].1,
{
}

} // verus!
