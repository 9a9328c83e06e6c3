//! The panels of figures: what a turn or a session used, row by row.

use crate::chat::{ChatState, ChatView};
use crate::text;
use crate::usage::TurnUsage;
use crate::usage;
use vstd::prelude::*;

verus! {

/// The rows of a panel: label and value.
pub type PanelRows = Seq<(Seq<char>, Seq<char>)>;

/// One row, where it is shown.
pub open spec fn row_if(shown: bool, label: Seq<char>, value: Seq<char>) -> PanelRows {
    if shown {
        seq![(label, value)]
    } else {
        Seq::empty()
    }
}

/// A number of tokens in full.
pub open spec fn tokens(n: nat) -> Seq<char> {
    text::grouped(text::dec(n)) + " tok"@
}

fn token_text(n: u64) -> (r: String)
    ensures
        r@ == tokens(n as nat),
{
    let s = usage::format_tokens_exact(n);
    text::concat2(s.as_str(), " tok")
}

fn push_row(rows: &mut Vec<(String, String)>, label: &str, value: String)
    ensures
        final(rows).deep_view() == old(rows).deep_view() + row_if(true, label@, value@),
{
    let ghost before = rows.deep_view();
    rows.push((label.to_string(), value));
    assert(rows.deep_view() =~= before + seq![(label@, value@)]);
}

/// A text that may be missing.
pub open spec fn or_nothing(s: Option<Seq<char>>) -> Seq<char> {
    match s {
        Some(s) => s,
        None => Seq::empty(),
    }
}

/// The rows of what a turn used. `hit` is the share of cached input, where it
/// is known.
pub open spec fn usage_rows(u: TurnUsage, hit: Option<Seq<char>>) -> PanelRows {
    row_if(u.route@.len() > 0, "提供方 / 模型"@, u.route@)
        + row_if(hit is Some, "缓存命中"@, or_nothing(hit) + "%"@)
        + row_if(
        true,
        "未缓存输入"@,
        tokens(
            usage::less(
                usage::less(u.input_tokens as int, usage::given(u.cache_read)),
                usage::given(u.cache_write),
            ) as nat,
        ),
    ) + row_if(u.cache_read is Some, "缓存读取"@, tokens(usage::given(u.cache_read) as nat))
        + row_if(u.cache_write is Some, "缓存写入"@, tokens(usage::given(u.cache_write) as nat))
        + row_if(true, "输出"@, output_text(u.output_tokens, u.reasoning))
}

/// The output of a turn, and how much of it was thought.
pub open spec fn output_text(output: u64, reasoning: Option<u64>) -> Seq<char> {
    match reasoning {
        Some(r) => tokens(output as nat) + "（其中推理 "@ + text::grouped(text::dec(r as nat))
            + "）"@,
        None => tokens(output as nat),
    }
}

fn output_line(output: u64, reasoning: Option<u64>) -> (r: String)
    ensures
        r@ == output_text(output, reasoning),
{
    let mut s = token_text(output);
    match reasoning {
        Some(n) => {
            text::push_text(&mut s, "（其中推理 ");
            let part = usage::format_tokens_exact(n);
            text::push_text(&mut s, part.as_str());
            text::push_text(&mut s, "）");
            s
        },
        None => s,
    }
}

/// The rows of what a turn used. `hit` is the share of cached input, where it
/// is known.
pub fn turn_usage_rows(u: &TurnUsage, hit: Option<String>) -> (r: Vec<(String, String)>)
    ensures
        r.deep_view() == usage_rows(*u, hit.deep_view()),
{
    let mut rows: Vec<(String, String)> = Vec::new();
    let ghost all = usage_rows(*u, hit.deep_view());
    if text::char_count(u.route.as_str()) > 0 {
        push_row(&mut rows, "提供方 / 模型", u.route.clone());
    }
    if let Some(h) = &hit {
        push_row(&mut rows, "缓存命中", text::concat2(h.as_str(), "%"));
    }
    push_row(&mut rows, "未缓存输入", token_text(u.uncached_input()));
    if let Some(n) = u.cache_read {
        push_row(&mut rows, "缓存读取", token_text(n));
    }
    if let Some(n) = u.cache_write {
        push_row(&mut rows, "缓存写入", token_text(n));
    }
    push_row(&mut rows, "输出", output_line(u.output_tokens, u.reasoning));
    assert(rows.deep_view() =~= all);
    rows
}

/// The rows of how long a turn took, with its speed and its latency where they
/// are known.
pub open spec fn time_rows(
    run_ms: u64,
    speed: Option<Seq<char>>,
    latency: Option<Seq<char>>,
) -> PanelRows {
    row_if(true, "本轮总用时"@, usage::duration_of(run_ms as nat)) + row_if(
        speed is Some,
        "输出速度（TPS）"@,
        or_nothing(speed) + " tok/s"@,
    ) + row_if(latency is Some, "首 token 平均用时（TTFT）"@, or_nothing(latency) + "秒"@)
}

/// The rows of how long a turn took, with its speed and its latency where they
/// are known.
pub fn turn_time_rows(u: &TurnUsage, speed: Option<String>, latency: Option<String>) -> (r: Vec<
    (String, String),
>)
    ensures
        r.deep_view() == time_rows(u.run_ms, speed.deep_view(), latency.deep_view()),
{
    let mut rows: Vec<(String, String)> = Vec::new();
    let ghost all = time_rows(u.run_ms, speed.deep_view(), latency.deep_view());
    push_row(&mut rows, "本轮总用时", usage::format_run_duration(u.run_ms));
    if let Some(s) = &speed {
        push_row(&mut rows, "输出速度（TPS）", text::concat2(s.as_str(), " tok/s"));
    }
    if let Some(s) = &latency {
        push_row(&mut rows, "首 token 平均用时（TTFT）", text::concat2(s.as_str(), "秒"));
    }
    assert(rows.deep_view() =~= all);
    rows
}

// ---------------------------------------------------------------------------
// the session
// ---------------------------------------------------------------------------

/// The figures of a session.
#[derive(Clone, Copy, Debug, PartialEq, Eq)]
pub struct SessionStats {
    pub turns: u64,
    pub steps: u64,
    pub llm_ms: u64,
    pub tool_ms: u64,
    /// The mean time to the first token.
    pub ttft_avg_ms: Option<u64>,
    /// The tokens and milliseconds that the output speed is made of.
    pub decoded: Option<(u64, u64)>,
    pub input_tokens: u64,
    pub output_tokens: u64,
    pub cache_read: u64,
    pub cache_write: u64,
}

/// The figures of a session.
pub open spec fn stats_of(s: ChatState) -> SessionStats {
    SessionStats {
        turns: s.counts.turns as u64,
        steps: s.counts.steps as u64,
        llm_ms: (s.llm_ns / 1_000_000) as u64,
        tool_ms: (s.tool_ns / 1_000_000) as u64,
        ttft_avg_ms: if s.ttft_steps > 0 {
            Some((s.ttft_sum_ms / s.ttft_steps) as u64)
        } else {
            None
        },
        decoded: if s.decode_ms > 0 {
            Some((s.decode_tokens as u64, s.decode_ms as u64))
        } else {
            None
        },
        input_tokens: s.counts.input_tokens as u64,
        output_tokens: s.counts.output_tokens as u64,
        cache_read: s.counts.cache_read as u64,
        cache_write: s.counts.cache_write as u64,
    }
}

impl ChatView {
    /// The figures of the session.
    pub fn session_stats(&self) -> (r: SessionStats)
        ensures
            r == stats_of(self.deep_view()),
    {
        SessionStats {
            turns: self.counts.turns,
            steps: self.counts.steps,
            llm_ms: self.llm_ns / 1_000_000,
            tool_ms: self.tool_ns / 1_000_000,
            ttft_avg_ms: if self.ttft_steps > 0 {
                Some(self.ttft_sum_ms / self.ttft_steps)
            } else {
                None
            },
            decoded: if self.decode_ms > 0 {
                Some((self.decode_tokens, self.decode_ms))
            } else {
                None
            },
            input_tokens: self.counts.input_tokens,
            output_tokens: self.counts.output_tokens,
            cache_read: self.counts.cache_read,
            cache_write: self.counts.cache_write,
        }
    }
}

/// A panel of the session.
#[derive(Clone, Copy, Debug, PartialEq, Eq, Structural)]
pub enum StatDialogKind {
    /// Times and speed.
    Gauge,
    /// Tokens.
    Usage,
}

/// `a + b`, but not above what can be held.
pub open spec fn sum_capped(a: u64, b: u64) -> nat {
    if a + b <= u64::MAX {
        (a + b) as nat
    } else {
        u64::MAX as nat
    }
}

/// The headline of a panel: all tokens.
pub open spec fn panel_headline(kind: StatDialogKind, s: SessionStats) -> Option<Seq<char>> {
    match kind {
        StatDialogKind::Gauge => None,
        StatDialogKind::Usage => Some(
            text::grouped(text::dec(sum_capped(s.input_tokens, s.output_tokens))),
        ),
    }
}

/// The rows of a panel. `speed` and `hit` are the output speed and the share of
/// cached input, in words, where they are known.
pub open spec fn panel_rows(
    kind: StatDialogKind,
    s: SessionStats,
    speed: Option<Seq<char>>,
    hit: Option<Seq<char>>,
) -> PanelRows {
    match kind {
        StatDialogKind::Gauge => row_if(
            s.llm_ms > 0,
            "模型用时"@,
            usage::duration_of(s.llm_ms as nat),
        ) + row_if(s.tool_ms > 0, "工具调用用时"@, usage::duration_of(s.tool_ms as nat))
            + row_if(
            s.ttft_avg_ms is Some,
            "首 token 平均（TTFT）"@,
            usage::duration_of(usage::given(s.ttft_avg_ms) as nat),
        ) + row_if(speed is Some, "输出速度（TPS）"@, or_nothing(speed)),
        StatDialogKind::Usage => row_if(hit is Some, "缓存命中"@, or_nothing(hit) + "%"@) + row_if(
            true,
            "输入"@,
            text::grouped(
                text::dec(
                    usage::less(
                        usage::less(s.input_tokens as int, s.cache_read as int),
                        s.cache_write as int,
                    ) as nat,
                ),
            ),
        ) + row_if(true, "缓存读取"@, text::grouped(text::dec(s.cache_read as nat))) + row_if(
            s.cache_write != 0,
            "缓存写入"@,
            text::grouped(text::dec(s.cache_write as nat)),
        ) + row_if(true, "输出"@, text::grouped(text::dec(s.output_tokens as nat))),
    }
}

impl SessionStats {
    /// All tokens.
    pub fn total(&self) -> (r: u64)
        ensures
            r == sum_capped(self.input_tokens, self.output_tokens),
    {
        self.input_tokens.saturating_add(self.output_tokens)
    }

    /// The headline and the rows of a panel. `speed` and `hit` are the output
    /// speed and the share of cached input, in words, where they are known.
    pub fn panel(&self, kind: StatDialogKind, speed: Option<String>, hit: Option<String>) -> (r: (
        Option<String>,
        Vec<(String, String)>,
    ))
        ensures
            r.0.deep_view() == panel_headline(kind, *self),
            r.1.deep_view() == panel_rows(kind, *self, speed.deep_view(), hit.deep_view()),
    {
        let ghost all = panel_rows(kind, *self, speed.deep_view(), hit.deep_view());
        let mut rows: Vec<(String, String)> = Vec::new();
        let headline = match kind {
            StatDialogKind::Gauge => {
                if self.llm_ms > 0 {
                    push_row(&mut rows, "模型用时", usage::format_run_duration(self.llm_ms));
                }
                if self.tool_ms > 0 {
                    push_row(&mut rows, "工具调用用时", usage::format_run_duration(self.tool_ms));
                }
                if let Some(ms) = self.ttft_avg_ms {
                    push_row(&mut rows, "首 token 平均（TTFT）", usage::format_run_duration(ms));
                }
                if let Some(s) = &speed {
                    push_row(&mut rows, "输出速度（TPS）", s.clone());
                }
                None
            },
            StatDialogKind::Usage => {
                let fresh: u64 = self.input_tokens.saturating_sub(self.cache_read).saturating_sub(
                    self.cache_write,
                );
                if let Some(h) = &hit {
                    push_row(&mut rows, "缓存命中", text::concat2(h.as_str(), "%"));
                }
                push_row(&mut rows, "输入", usage::format_tokens_exact(fresh));
                push_row(&mut rows, "缓存读取", usage::format_tokens_exact(self.cache_read));
                if self.cache_write != 0 {
                    push_row(&mut rows, "缓存写入", usage::format_tokens_exact(self.cache_write));
                }
                push_row(&mut rows, "输出", usage::format_tokens_exact(self.output_tokens));
                Some(usage::format_tokens_exact(self.total()))
            },
        };
        assert(rows.deep_view() =~= all);
        (headline, rows)
    }

    /// Whether tokens were used.
    pub fn has_tokens(&self) -> (r: bool)
        ensures
            r == (self.input_tokens > 0 || self.output_tokens > 0),
    {
        self.input_tokens > 0 || self.output_tokens > 0
    }

    /// Whether the figures are shown at all.
    pub fn is_shown(&self) -> (r: bool)
        ensures
            r == (self.steps > 0 || self.input_tokens > 0 || self.output_tokens > 0),
    {
        self.steps > 0 || self.has_tokens()
    }

    /// Whether any time was measured, so that its panel opens.
    pub fn is_timed(&self) -> (r: bool)
        ensures
            r == (self.llm_ms > 0 || self.tool_ms > 0 || self.ttft_avg_ms is Some || self.decoded
                is Some),
    {
        self.llm_ms > 0 || self.tool_ms > 0 || self.ttft_avg_ms.is_some() || self.decoded.is_some()
    }

    /// The turns and steps, in words.
    pub fn counts_text(&self) -> (r: String)
        ensures
            r@ == text::dec(self.turns as nat) + " 轮 "@ + text::dec(self.steps as nat) + " 步"@,
    {
        let mut s = text::decimal(self.turns);
        text::push_text(&mut s, " 轮 ");
        let steps = text::decimal(self.steps);
        text::push_text(&mut s, steps.as_str());
        text::push_text(&mut s, " 步");
        s
    }
}

/// The panel that is open after a click on the one of `kind`: no two are open
/// at once.
pub fn toggle_panel(open: Option<StatDialogKind>, kind: StatDialogKind) -> (r: Option<
    StatDialogKind,
>)
    ensures
        r == (if open == Some(kind) {
            None
        } else {
            Some(kind)
        }),
{
    match open {
        Some(k) => if k == kind {
            None
        } else {
            Some(kind)
        },
        None => Some(kind),
    }
}

// ---------------------------------------------------------------------------
// laws of the panels
// ---------------------------------------------------------------------------

/// Whether the panel has a row with this label and this value.
pub open spec fn has_row(rows: PanelRows, label: Seq<char>, value: Seq<char>) -> bool {
    exists|i: int| 0 <= i < rows.len() && #[trigger] rows[i] == (label, value)
}

proof fn lemma_row_in(a: PanelRows, b: PanelRows, label: Seq<char>, value: Seq<char>)
    requires
        has_row(a, label, value) || has_row(b, label, value),
    ensures
        has_row(a + b, label, value),
{
    if has_row(a, label, value) {
        let i = choose|i: int| 0 <= i < a.len() && #[trigger] a[i] == (label, value);
        assert((a + b)[i] == (label, value));
    } else {
        let i = choose|i: int| 0 <= i < b.len() && #[trigger] b[i] == (label, value);
        assert((a + b)[a.len() + i] == (label, value));
    }
}

/// A number of tokens is written with its digits, commas apart, and its unit.
pub proof fn tokens_are_written_out(n: nat)
    ensures
        text::finishes(tokens(n), " tok"@),
        text::number(tokens(n).take(tokens(n).len() - 4).filter(|c: char| c != ',')) == n,
{
    reveal_strlit(" tok");
    let d = text::dec(n);
    let s = tokens(n);
    text::lemma_dec_reads(n);
    assert(!d.contains(',')) by {
        if d.contains(',') {
            let i = choose|i: int| 0 <= i < d.len() && d[i] == ',';
            assert(text::is_digit(d[i]));
        }
    }
    text::grouping_adds_commas_only(d);
    assert(s.take(s.len() - 4) =~= text::grouped(d));
    assert(s.skip(s.len() - 4) =~= " tok"@);
}

/// The panel of a turn has a row for everything that is known of it, and the
/// three figures of the input add up to the input where the cache held no more.
pub proof fn turn_panel_shows_the_figures(u: TurnUsage, hit: Option<Seq<char>>, fresh: u64)
    ensures
        u.route@.len() > 0 ==> usage_rows(u, hit)[0] == ("提供方 / 模型"@, u.route@),
        hit matches Some(h) ==> has_row(usage_rows(u, hit), "缓存命中"@, h + "%"@),
        u.cache_read matches Some(n) ==> has_row(usage_rows(u, hit), "缓存读取"@, tokens(n as nat)),
        u.cache_write matches Some(n) ==> has_row(usage_rows(u, hit), "缓存写入"@, tokens(n as nat)),
        fresh + usage::given(u.cache_read) + usage::given(u.cache_write) == u.input_tokens
            ==> has_row(usage_rows(u, hit), "未缓存输入"@, tokens(fresh as nat)),
        u.reasoning is None ==> usage_rows(u, hit).last() == ("输出"@, tokens(u.output_tokens as nat)),
        u.reasoning matches Some(r) ==> usage_rows(u, hit).last().0 == "输出"@ && text::begins(
            usage_rows(u, hit).last().1,
            tokens(u.output_tokens as nat),
        ) && text::holds_text(
            usage_rows(u, hit).last().1,
            text::grouped(text::dec(r as nat)),
        ),
{
    let a = row_if(u.route@.len() > 0, "提供方 / 模型"@, u.route@);
    let b = row_if(hit is Some, "缓存命中"@, or_nothing(hit) + "%"@);
    let left = usage::less(
        usage::less(u.input_tokens as int, usage::given(u.cache_read)),
        usage::given(u.cache_write),
    ) as nat;
    let c = row_if(true, "未缓存输入"@, tokens(left));
    let d = row_if(u.cache_read is Some, "缓存读取"@, tokens(usage::given(u.cache_read) as nat));
    let e = row_if(u.cache_write is Some, "缓存写入"@, tokens(usage::given(u.cache_write) as nat));
    let f = row_if(true, "输出"@, output_text(u.output_tokens, u.reasoning));
    assert(usage_rows(u, hit) =~= a + b + c + d + e + f);
    if let Some(h) = hit {
        assert(b[0] == ("缓存命中"@, h + "%"@));
        lemma_row_in(a, b, "缓存命中"@, h + "%"@);
        lemma_row_in(a + b, c, "缓存命中"@, h + "%"@);
        lemma_row_in(a + b + c, d, "缓存命中"@, h + "%"@);
        lemma_row_in(a + b + c + d, e, "缓存命中"@, h + "%"@);
        lemma_row_in(a + b + c + d + e, f, "缓存命中"@, h + "%"@);
    }
    if fresh + usage::given(u.cache_read) + usage::given(u.cache_write) == u.input_tokens {
        assert(c[0] == ("未缓存输入"@, tokens(fresh as nat)));
        lemma_row_in(a + b, c, "未缓存输入"@, tokens(fresh as nat));
        lemma_row_in(a + b + c, d, "未缓存输入"@, tokens(fresh as nat));
        lemma_row_in(a + b + c + d, e, "未缓存输入"@, tokens(fresh as nat));
        lemma_row_in(a + b + c + d + e, f, "未缓存输入"@, tokens(fresh as nat));
    }
    if let Some(n) = u.cache_read {
        assert(d[0] == ("缓存读取"@, tokens(n as nat)));
        lemma_row_in(a + b + c, d, "缓存读取"@, tokens(n as nat));
        lemma_row_in(a + b + c + d, e, "缓存读取"@, tokens(n as nat));
        lemma_row_in(a + b + c + d + e, f, "缓存读取"@, tokens(n as nat));
    }
    if let Some(n) = u.cache_write {
        assert(e[0] == ("缓存写入"@, tokens(n as nat)));
        lemma_row_in(a + b + c + d, e, "缓存写入"@, tokens(n as nat));
        lemma_row_in(a + b + c + d + e, f, "缓存写入"@, tokens(n as nat));
    }
    if let Some(r) = u.reasoning {
        let o = output_text(u.output_tokens, u.reasoning);
        let t = tokens(u.output_tokens as nat);
        let g = text::grouped(text::dec(r as nat));
        let at = t.len() as int + "（其中推理 "@.len();
        assert(o.take(t.len() as int) =~= t);
        assert(o.subrange(at, at + g.len()) =~= g);
        assert(text::stands_at(o, g, at));
    }
}

/// The times of a turn start with how long it ran; its speed and its delay are
/// shown where they are known.
pub proof fn turn_panel_shows_the_times(
    run_ms: u64,
    speed: Option<Seq<char>>,
    latency: Option<Seq<char>>,
)
    ensures
        time_rows(run_ms, speed, latency)[0] == ("本轮总用时"@, usage::duration_of(run_ms as nat)),
        speed matches Some(s) ==> time_rows(run_ms, speed, latency)[1] == (
            "输出速度（TPS）"@,
            s + " tok/s"@,
        ),
        latency matches Some(s) ==> time_rows(run_ms, speed, latency).last() == (
            "首 token 平均用时（TTFT）"@,
            s + "秒"@,
        ),
        time_rows(run_ms, speed, latency).len() == 1 + (if speed is Some {
            1int
        } else {
            0
        }) + (if latency is Some {
            1int
        } else {
            0
        }),
{
}

/// The figures of a session are those that its chat holds; the mean delay is
/// the whole part of the sum over the steps.
pub proof fn session_figures_are_those_of_the_chat(s: ChatState)
    requires
        s.counts.turns <= u64::MAX,
        s.counts.steps <= u64::MAX,
        s.counts.input_tokens <= u64::MAX,
        s.counts.output_tokens <= u64::MAX,
        s.counts.cache_read <= u64::MAX,
        s.counts.cache_write <= u64::MAX,
    ensures
        stats_of(s).turns == s.counts.turns,
        stats_of(s).steps == s.counts.steps,
        stats_of(s).input_tokens == s.counts.input_tokens,
        stats_of(s).output_tokens == s.counts.output_tokens,
        stats_of(s).cache_read == s.counts.cache_read,
        stats_of(s).cache_write == s.counts.cache_write,
        s.llm_ns / 1_000_000 <= u64::MAX ==> stats_of(s).llm_ms * 1_000_000 <= s.llm_ns < (stats_of(
            s,
        ).llm_ms + 1) * 1_000_000,
        s.tool_ns / 1_000_000 <= u64::MAX ==> stats_of(s).tool_ms * 1_000_000 <= s.tool_ns < (
        stats_of(s).tool_ms + 1) * 1_000_000,
        stats_of(s).ttft_avg_ms is Some <==> s.ttft_steps > 0,
        s.ttft_steps > 0 && s.ttft_sum_ms <= u64::MAX ==> (stats_of(s).ttft_avg_ms->0) * s.ttft_steps
            <= s.ttft_sum_ms < (stats_of(s).ttft_avg_ms->0 + 1) * s.ttft_steps,
        s.decode_tokens <= u64::MAX && 0 < s.decode_ms <= u64::MAX ==> (stats_of(s).decoded matches Some(
            d,
        ) && d.0 == s.decode_tokens && d.1 == s.decode_ms),
        s.decode_ms == 0 ==> stats_of(s).decoded is None,
{
    if s.ttft_steps > 0 && s.ttft_sum_ms <= u64::MAX {
        let q = s.ttft_sum_ms / s.ttft_steps;
        let n = s.ttft_steps;
        let t = s.ttft_sum_ms;
        assert(q * n <= t < (q + 1) * n && q <= t) by (nonlinear_arith)
            requires
                n > 0,
                q == t / n,
        ;
    }
}

/// The panel of a session shows every time that is not 0 and every count of
/// tokens, what was cached apart from what was not.
pub proof fn session_panel_shows_the_figures(
    s: SessionStats,
    speed: Option<Seq<char>>,
    hit: Option<Seq<char>>,
    fresh: u64,
)
    ensures
        ({
            let times = panel_rows(StatDialogKind::Gauge, s, speed, hit);
            &&& s.llm_ms > 0 ==> times[0] == ("模型用时"@, usage::duration_of(s.llm_ms as nat))
            &&& s.llm_ms == 0 && s.tool_ms > 0 ==> times[0] == (
                "工具调用用时"@,
                usage::duration_of(s.tool_ms as nat),
            )
            &&& s.llm_ms > 0 && s.tool_ms > 0 ==> times[1] == (
                "工具调用用时"@,
                usage::duration_of(s.tool_ms as nat),
            )
            &&& speed matches Some(v) ==> times.last() == ("输出速度（TPS）"@, v)
            &&& speed is None && s.ttft_avg_ms is Some ==> times.last() == (
                "首 token 平均（TTFT）"@,
                usage::duration_of(s.ttft_avg_ms->0 as nat),
            )
        }),
        ({
            let counts = panel_rows(StatDialogKind::Usage, s, speed, hit);
            let first = if hit is Some {
                1int
            } else {
                0
            };
            &&& hit matches Some(h) ==> counts[0] == ("缓存命中"@, h + "%"@)
            &&& fresh + s.cache_read + s.cache_write == s.input_tokens ==> counts[first] == (
                "输入"@,
                text::grouped(text::dec(fresh as nat)),
            )
            &&& counts[first + 1] == ("缓存读取"@, text::grouped(text::dec(s.cache_read as nat)))
            &&& s.cache_write > 0 ==> counts[first + 2] == (
                "缓存写入"@,
                text::grouped(text::dec(s.cache_write as nat)),
            )
            &&& counts.last() == ("输出"@, text::grouped(text::dec(s.output_tokens as nat)))
            &&& s.input_tokens + s.output_tokens <= u64::MAX ==> panel_headline(
                StatDialogKind::Usage,
                s,
            ) == Some(text::grouped(text::dec((s.input_tokens + s.output_tokens) as nat)))
        }),
{
}

} // verus!
