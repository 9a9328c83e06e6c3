//! The panel of details: what it shows of a cell of the ledger.

use crate::text;
use crate::traj::{TrajCell, TrajKind};
use vstd::prelude::*;

verus! {

/// A tool call that is looked at.
#[derive(Clone, Debug)]
pub struct ToolDetail {
    pub name: String,
    pub arguments: String,
    pub result: Option<String>,
    pub error: bool,
}

/// A message that is looked at.
#[derive(Clone, Debug)]
pub struct MessageDetail {
    /// The number of its cell in the ledger.
    pub index: usize,
    /// Whether the user wrote it.
    pub from_user: bool,
    pub turn: u64,
    pub text: String,
    pub reasoning: Option<String>,
    /// Input, output and reasoning tokens.
    pub usage: Option<(u64, u64, Option<u64>)>,
}

/// What is looked at: a click on a cell takes the place of what was looked at
/// before.
#[derive(Clone, Debug)]
pub enum Detail {
    Nothing,
    Tool(ToolDetail),
    Message(MessageDetail),
}

/// Looks at a cell.
pub fn detail_of(c: &TrajCell) -> (r: Detail)
    requires
        c.kind == TrajKind::Tool ==> c.tool is Some,
    ensures
        match (c.kind, c.tool, r) {
            (TrajKind::Tool, Some(t), Detail::Tool(d)) => d.name@ == t.name@ && d.arguments@
                == t.arguments@ && d.result.deep_view() == t.result.deep_view() && d.error
                == t.error,
            (TrajKind::Tool, _, _) => false,
            (_, _, Detail::Message(m)) => m.index == c.index && m.from_user == (c.kind
                == TrajKind::User) && m.turn == c.turn && m.text@ == c.detail_text@
                && m.reasoning.deep_view() == c.reasoning.deep_view() && m.usage == c.metrics,
            _ => false,
        },
{
    let from_user: bool = match c.kind {
        TrajKind::Tool => {
            match &c.tool {
                Some(t) => {
                    return Detail::Tool(
                        ToolDetail {
                            name: t.name.clone(),
                            arguments: t.arguments.clone(),
                            result: t.result.clone(),
                            error: t.error,
                        },
                    );
                },
                None => {
                    return Detail::Nothing;
                },
            }
        },
        TrajKind::User => true,
        TrajKind::Message => false,
    };
    Detail::Message(
        MessageDetail {
            index: c.index,
            from_user,
            turn: c.turn,
            text: c.detail_text.clone(),
            reasoning: c.reasoning.clone(),
            usage: c.metrics,
        },
    )
}

/// A part of the panel.
#[derive(Debug)]
pub struct Section {
    pub title: &'static str,
    pub text: String,
    /// Whether the text is a stand-in.
    pub dim: bool,
    /// Whether it tells of a failure.
    pub failed: bool,
}

/// What a part of the panel holds.
pub struct SectionView {
    pub title: Seq<char>,
    pub text: Seq<char>,
    pub dim: bool,
    /// Whether it tells of a failure.
    pub failed: bool,
}

impl DeepView for Section {
    type V = SectionView;

    open spec fn deep_view(&self) -> SectionView {
        SectionView { title: self.title@, text: self.text@, dim: self.dim, failed: self.failed }
    }
}

/// What kind of message it is, and where it stands.
pub open spec fn kind_line(m: MessageDetail) -> Seq<char> {
    (if m.from_user {
        "用户"@
    } else {
        "消息"@
    }) + " · 第 "@ + text::dec(m.turn as nat) + " 轮 · #"@ + text::dec(m.index as nat)
}

/// What a message took.
pub open spec fn usage_line(u: (u64, u64, Option<u64>)) -> Seq<char> {
    "输入 "@ + text::dec(u.0 as nat) + " · 输出 "@ + text::dec(u.1 as nat) + " · 思考 "@ + (match u.2 {
        Some(n) => text::dec(n as nat),
        None => "—"@,
    })
}

/// The part with what was said.
pub open spec fn said(t: Seq<char>) -> SectionView {
    if text::trimmed(t).len() == 0 {
        SectionView { title: "内容"@, text: "（仅工具调用）"@, dim: true, failed: false }
    } else {
        SectionView { title: "内容"@, text: t, dim: false, failed: false }
    }
}

/// The parts that a message has: its kind, its thoughts where it has any, what
/// was said, and what it took where that is known.
pub open spec fn message_parts(m: MessageDetail) -> Seq<SectionView> {
    let kind = seq![SectionView { title: "种类"@, text: kind_line(m), dim: false, failed: false }];
    let thoughts = match m.reasoning.deep_view() {
        Some(t) => seq![SectionView { title: "思考"@, text: t, dim: false, failed: false }],
        None => Seq::empty(),
    };
    let took = match m.usage {
        Some(u) => seq![SectionView { title: "Token 用量"@, text: usage_line(u), dim: false, failed: false }],
        None => Seq::empty(),
    };
    kind + thoughts + seq![said(m.text@)] + took
}

fn kind_text(m: &MessageDetail) -> (r: String)
    ensures
        r@ == kind_line(*m),
{
    let turn: String = text::decimal(m.turn);
    let index: String = text::decimal(m.index as u64);
    let mut r: String = if m.from_user { "用户".to_owned() } else { "消息".to_owned() };
    text::push_text(&mut r, " · 第 ");
    text::push_text(&mut r, turn.as_str());
    text::push_text(&mut r, " 轮 · #");
    text::push_text(&mut r, index.as_str());
    r
}

fn usage_text(u: (u64, u64, Option<u64>)) -> (r: String)
    ensures
        r@ == usage_line(u),
{
    let input: String = text::decimal(u.0);
    let output: String = text::decimal(u.1);
    let thought: String = match u.2 {
        Some(n) => text::decimal(n),
        None => "—".to_owned(),
    };
    let mut r: String = "输入 ".to_owned();
    text::push_text(&mut r, input.as_str());
    text::push_text(&mut r, " · 输出 ");
    text::push_text(&mut r, output.as_str());
    text::push_text(&mut r, " · 思考 ");
    text::push_text(&mut r, thought.as_str());
    r
}

/// The parts of the panel for a message.
pub fn message_sections(m: &MessageDetail) -> (r: Vec<Section>)
    ensures
        r.deep_view() == message_parts(*m),
{
    let mut r: Vec<Section> = Vec::new();
    r.push(Section { title: "种类", text: kind_text(m), dim: false, failed: false });
    match &m.reasoning {
        Some(t) => {
            r.push(Section { title: "思考", text: t.clone(), dim: false, failed: false });
        },
        None => {},
    }
    if text::is_blank(m.text.as_str()) {
        r.push(Section { title: "内容", text: "（仅工具调用）".to_owned(), dim: true, failed: false });
    } else {
        r.push(Section { title: "内容", text: m.text.clone(), dim: false, failed: false });
    }
    match m.usage {
        Some(u) => {
            r.push(Section { title: "Token 用量", text: usage_text(u), dim: false, failed: false });
        },
        None => {},
    }
    assert(r.deep_view() =~= message_parts(*m));
    r
}

/// The parts that a tool call has: its name; `input`, which is what is shown of
/// its arguments; and its result where it has one.
pub open spec fn tool_parts(t: ToolDetail, input: Seq<char>) -> Seq<SectionView> {
    seq![
        SectionView { title: "工具"@, text: t.name@, dim: false, failed: false },
        SectionView { title: "输入"@, text: input, dim: false, failed: false },
        match t.result.deep_view() {
            Some(s) => SectionView { title: "输出"@, text: s, dim: false, failed: t.error },
            None => SectionView { title: "输出"@, text: "（运行中…）"@, dim: true, failed: false },
        },
    ]
}

/// The parts of the panel for a tool call; `input` is what is shown of its
/// arguments.
pub fn tool_sections(t: &ToolDetail, input: String) -> (r: Vec<Section>)
    ensures
        r.deep_view() == tool_parts(*t, input@),
{
    let ghost shown = input@;
    let mut r: Vec<Section> = Vec::new();
    r.push(Section { title: "工具", text: t.name.clone(), dim: false, failed: false });
    r.push(Section { title: "输入", text: input, dim: false, failed: false });
    match &t.result {
        Some(s) => {
            r.push(Section { title: "输出", text: s.clone(), dim: false, failed: t.error });
        },
        None => {
            r.push(
                Section { title: "输出", text: "（运行中…）".to_owned(), dim: true, failed: false },
            );
        },
    }
    assert(r.deep_view() =~= tool_parts(*t, shown));
    r
}

/// What stands for a line, which must not be empty to take up its height.
pub open spec fn tall(line: Seq<char>) -> Seq<char> {
    if line.len() == 0 {
        "\u{00A0}"@
    } else {
        line
    }
}

/// The lines of a text as they are laid out.
pub fn prose_lines(s: &str) -> (r: Vec<String>)
    ensures
        r.deep_view().len() == text::pieces(s@, '\n').len(),
        forall|i: int|
            0 <= i < r.deep_view().len() ==> #[trigger] r.deep_view()[i] == tall(
                text::pieces(s@, '\n')[i],
            ),
{
    let lines: Vec<String> = text::split(s, '\n');
    let ghost view = text::pieces(s@, '\n');
    assert(lines.deep_view().len() == lines@.len());
    let mut r: Vec<String> = Vec::new();
    let mut i: usize = 0;
    while i < lines.len()
        invariant
            i <= lines@.len(),
            view == lines.deep_view(),
            r@.len() == i,
            forall|k: int| 0 <= k < i ==> (#[trigger] r@[k])@ == tall(view[k]),
        decreases lines@.len() - i,
    {
        assert(view[i as int] == lines@[i as int]@);
        if lines[i].as_str().is_empty() {
            r.push("\u{00A0}".to_owned());
        } else {
            r.push(lines[i].clone());
        }
        i = i + 1;
    }
    r
}

// ---------------------------------------------------------------------------
// laws of the details
// ---------------------------------------------------------------------------

/// Whether a section with this title and this text is among them.
pub open spec fn tells(parts: Seq<SectionView>, title: Seq<char>, t: Seq<char>) -> bool {
    exists|i: int| 0 <= i < parts.len() && #[trigger] told_at(parts, i, title, t)
}

/// Whether the section at `i` says `t` under this title.
pub open spec fn told_at(parts: Seq<SectionView>, i: int, title: Seq<char>, t: Seq<char>) -> bool {
    parts[i].title == title && parts[i].text == t && !parts[i].dim
}

/// The details of a message hold its text, its thoughts and its tokens, as far
/// as there are any.
pub proof fn details_hold_the_message(m: MessageDetail)
    ensures
        text::trimmed(m.text@).len() > 0 ==> tells(message_parts(m), "内容"@, m.text@),
        m.reasoning matches Some(t) ==> tells(message_parts(m), "思考"@, t@),
        m.usage matches Some(u) ==> tells(message_parts(m), "Token 用量"@, usage_line(u)),
        tells(message_parts(m), "种类"@, kind_line(m)),
        message_parts(m).len() == 2 + (if m.reasoning is Some {
            1int
        } else {
            0
        }) + (if m.usage is Some {
            1int
        } else {
            0
        }),
        forall|i: int| 0 <= i < message_parts(m).len() ==> !(#[trigger] message_parts(m)[i]).failed,
{
    let parts = message_parts(m);
    assert(told_at(parts, 0, "种类"@, kind_line(m)));
    let at = if m.reasoning is Some {
        2int
    } else {
        1
    };
    if let Some(t) = m.reasoning {
        assert(told_at(parts, 1, "思考"@, t@));
    }
    if text::trimmed(m.text@).len() > 0 {
        assert(told_at(parts, at, "内容"@, m.text@));
    }
    if let Some(u) = m.usage {
        assert(told_at(parts, at + 1, "Token 用量"@, usage_line(u)));
    }
}

/// The line of a message tells who wrote it, and ends in the numbers of its
/// turn and its cell.
pub proof fn kind_line_tells_its_place(m: MessageDetail)
    ensures
        m.from_user ==> text::begins(kind_line(m), "用户"@),
        !m.from_user ==> text::begins(kind_line(m), "消息"@),
        text::finishes(
            kind_line(m),
            " · 第 "@ + text::dec(m.turn as nat) + " 轮 · #"@ + text::dec(m.index as nat),
        ),
{
    let who = if m.from_user {
        "用户"@
    } else {
        "消息"@
    };
    let rest = " · 第 "@ + text::dec(m.turn as nat) + " 轮 · #"@ + text::dec(m.index as nat);
    let line = kind_line(m);
    assert(line =~= who + rest);
    assert(line.take(who.len() as int) =~= who);
    assert(line.skip(line.len() - rest.len()) =~= rest);
}

/// The line of tokens gives input, output and thoughts in this order.
pub proof fn usage_line_gives_the_tokens(input: u64, output: u64, thought: u64)
    ensures
        text::begins(usage_line((input, output, None)), "输入 "@ + text::dec(input as nat)),
        text::holds_text(
            usage_line((input, output, None)),
            " · 输出 "@ + text::dec(output as nat),
        ),
        text::finishes(
            usage_line((input, output, Some(thought))),
            " · 思考 "@ + text::dec(thought as nat),
        ),
        text::finishes(usage_line((input, output, None)), " · 思考 —"@),
{
    reveal_strlit("—");
    reveal_strlit(" · 思考 ");
    reveal_strlit(" · 思考 —");
    let a = usage_line((input, output, None));
    let b = usage_line((input, output, Some(thought)));
    let front = "输入 "@ + text::dec(input as nat);
    let middle = " · 输出 "@ + text::dec(output as nat);
    let back = " · 思考 "@ + text::dec(thought as nat);
    assert(a.take(front.len() as int) =~= front);
    assert(a.subrange(front.len() as int, front.len() as int + middle.len()) =~= middle);
    assert(text::stands_at(a, middle, front.len() as int));
    assert(b.skip(b.len() - back.len()) =~= back);
    assert(a.skip(a.len() - 7) =~= " · 思考 —"@);
}

/// The details of a call hold its name, its input and, once there is one, its
/// result, marked where it failed.
pub proof fn details_hold_the_call(t: ToolDetail, input: Seq<char>)
    ensures
        tells(tool_parts(t, input), "工具"@, t.name@),
        tells(tool_parts(t, input), "输入"@, input),
        t.result matches Some(s) ==> tells(tool_parts(t, input), "输出"@, s@),
        tool_parts(t, input).len() == 3,
        tool_parts(t, input)[2].failed == (t.result is Some && t.error),
        tool_parts(t, input)[2].dim == (t.result is None),
{
    let parts = tool_parts(t, input);
    assert(told_at(parts, 0, "工具"@, t.name@));
    assert(told_at(parts, 1, "输入"@, input));
    if let Some(s) = t.result {
        assert(told_at(parts, 2, "输出"@, s@));
    }
}

/// A line that holds anything is shown as it is, and an empty one keeps its
/// height.
pub proof fn lines_keep_their_text(line: Seq<char>)
    ensures
        line.len() > 0 ==> tall(line) == line,
        tall(line).len() > 0,
{
    reveal_strlit("\u{00A0}");
}

} // verus!
