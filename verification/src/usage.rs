//! Token and time figures, and how they are written.

use crate::text;
use vstd::prelude::*;

verus! {

/// The figures of a turn.
#[derive(Clone, Debug)]
pub struct TurnUsage {
    pub input_tokens: u64,
    pub output_tokens: u64,
    pub cache_read: Option<u64>,
    pub cache_write: Option<u64>,
    pub reasoning: Option<u64>,
    pub run_ms: u64,
    pub llm_ms: u64,
    pub ttft_ms: Option<u64>,
    pub route: String,
}

/// The contents of the figures of a turn.
pub struct UsageView {
    pub input_tokens: nat,
    pub output_tokens: nat,
    pub cache_read: Option<nat>,
    pub cache_write: Option<nat>,
    pub reasoning: Option<nat>,
    pub run_ms: nat,
    pub llm_ms: nat,
    pub ttft_ms: Option<nat>,
    pub route: Seq<char>,
}

/// An optional count as a number.
pub open spec fn count_of(n: Option<u64>) -> Option<nat> {
    match n {
        Some(n) => Some(n as nat),
        None => None,
    }
}

impl DeepView for TurnUsage {
    type V = UsageView;

    open spec fn deep_view(&self) -> UsageView {
        UsageView {
            input_tokens: self.input_tokens as nat,
            output_tokens: self.output_tokens as nat,
            cache_read: count_of(self.cache_read),
            cache_write: count_of(self.cache_write),
            reasoning: count_of(self.reasoning),
            run_ms: self.run_ms as nat,
            llm_ms: self.llm_ms as nat,
            ttft_ms: count_of(self.ttft_ms),
            route: self.route@,
        }
    }
}

/// No figures.
pub open spec fn no_usage() -> UsageView {
    UsageView {
        input_tokens: 0,
        output_tokens: 0,
        cache_read: None,
        cache_write: None,
        reasoning: None,
        run_ms: 0,
        llm_ms: 0,
        ttft_ms: None,
        route: Seq::empty(),
    }
}

impl Default for TurnUsage {
    fn default() -> (r: Self)
        ensures
            r.deep_view() == no_usage(),
    {
        TurnUsage {
            input_tokens: 0,
            output_tokens: 0,
            cache_read: None,
            cache_write: None,
            reasoning: None,
            run_ms: 0,
            llm_ms: 0,
            ttft_ms: None,
            route: String::new(),
        }
    }
}

/// A count that was given, or 0.
pub open spec fn given(n: Option<u64>) -> int {
    match n {
        Some(n) => n as int,
        None => 0,
    }
}

/// `a - b`, but not below 0.
pub open spec fn less(a: int, b: int) -> int {
    if a >= b {
        a - b
    } else {
        0
    }
}

/// What is known of the share of cached input.
pub enum CacheHit {
    /// Nothing.
    Unknown,
    /// All of it was cached.
    Full,
    /// `read` of `prompt` tokens were cached.
    Part { read: u64, prompt: u64 },
}

impl TurnUsage {
    /// Input and output together.
    pub fn total_tokens(&self) -> (r: u64)
        requires
            self.input_tokens + self.output_tokens <= u64::MAX,
        ensures
            r == self.input_tokens + self.output_tokens,
    {
        self.input_tokens + self.output_tokens
    }

    /// The input that was neither read from the cache nor written to it.
    pub fn uncached_input(&self) -> (r: u64)
        ensures
            r == less(
                less(self.input_tokens as int, given(self.cache_read)),
                given(self.cache_write),
            ),
    {
        let read: u64 = match self.cache_read {
            Some(n) => n,
            None => 0,
        };
        let write: u64 = match self.cache_write {
            Some(n) => n,
            None => 0,
        };
        self.input_tokens.saturating_sub(read).saturating_sub(write)
    }

    /// How much of the prompt was cached: unknown where no cache figure or no
    /// prompt is known.
    pub fn cache_hit(&self) -> (r: CacheHit)
        ensures
            match self.cache_read {
                None => r is Unknown,
                Some(read) => if self.input_tokens == 0 {
                    r is Unknown
                } else if read >= self.input_tokens {
                    r is Full
                } else {
                    r == (CacheHit::Part { read, prompt: self.input_tokens })
                },
            },
    {
        match self.cache_read {
            None => CacheHit::Unknown,
            Some(read) => {
                if self.input_tokens == 0 {
                    CacheHit::Unknown
                } else if read >= self.input_tokens {
                    CacheHit::Full
                } else {
                    CacheHit::Part { read, prompt: self.input_tokens }
                }
            },
        }
    }

    /// The tokens and milliseconds that the output speed is made of, where
    /// there are both.
    pub fn speed(&self) -> (r: Option<(u64, u64)>)
        ensures
            r == (if self.llm_ms == 0 || self.output_tokens == 0 {
                None
            } else {
                Some((self.output_tokens, self.llm_ms))
            }),
    {
        if self.llm_ms == 0 || self.output_tokens == 0 {
            None
        } else {
            Some((self.output_tokens, self.llm_ms))
        }
    }
}

/// A number of thousandths as a percentage.
pub open spec fn percent_of(units: nat) -> Seq<char> {
    if units % 10 == 0 {
        text::dec(units / 10)
    } else {
        text::dec(units / 10) + "."@ + text::dec(units % 10)
    }
}

/// A number of thousandths as a percentage, with a decimal only where it is
/// not 0.
pub fn percent_text(units: u64) -> (r: String)
    ensures
        r@ == percent_of(units as nat),
{
    let whole: String = text::decimal(units / 10);
    if units % 10 == 0 {
        whole
    } else {
        let part: String = text::decimal(units % 10);
        text::concat3(whole.as_str(), ".", part.as_str())
    }
}

/// A number of tokens with a comma before every group of three digits.
pub fn format_tokens_exact(value: u64) -> (r: String)
    ensures
        r@ == text::grouped(text::dec(value as nat)),
{
    text::decimal_grouped(value)
}

/// A number of milliseconds in hours, minutes and seconds: the smaller ones
/// have two digits behind a larger one, and what is 0 at the front is left
/// out.
pub open spec fn duration_of(ms: nat) -> Seq<char> {
    let total = ms / 1000;
    let hours = total / 3600;
    let minutes = (total / 60) % 60;
    let seconds = total % 60;
    if hours > 0 {
        text::dec(hours) + "小时"@ + text::padded(minutes, 2) + "分"@ + text::padded(seconds, 2)
            + "秒"@
    } else if minutes > 0 {
        text::dec(minutes) + "分"@ + text::padded(seconds, 2) + "秒"@
    } else {
        text::dec(seconds) + "秒"@
    }
}

/// A number of milliseconds in hours, minutes and seconds.
pub fn format_run_duration(ms: u64) -> (r: String)
    ensures
        r@ == duration_of(ms as nat),
{
    let total: u64 = ms / 1000;
    let hours: u64 = total / 3600;
    let minutes: u64 = (total / 60) % 60;
    let seconds: u64 = total % 60;
    if hours > 0 {
        let mut r: String = text::decimal(hours);
        r.append("小时");
        r.append(text::decimal_padded(minutes, 2).as_str());
        r.append("分");
        r.append(text::decimal_padded(seconds, 2).as_str());
        r.append("秒");
        r
    } else if minutes > 0 {
        let mut r: String = text::decimal(minutes);
        r.append("分");
        r.append(text::decimal_padded(seconds, 2).as_str());
        r.append("秒");
        r
    } else {
        text::decimal(seconds).concat("秒")
    }
}

/// Milliseconds with their unit, or a dash where none are known.
pub open spec fn span_of(ms: Option<u64>) -> Seq<char> {
    match ms {
        Some(ms) => text::grouped(text::dec(ms as nat)) + " 毫秒"@,
        None => "—"@,
    }
}

/// How long ago something was.
pub open spec fn ago_of(secs: nat) -> Seq<char> {
    if secs < 60 {
        "刚刚"@
    } else if secs < 3600 {
        text::dec(secs / 60) + "分钟"@
    } else if secs < 86400 {
        text::dec(secs / 3600) + "小时"@
    } else if secs < 2592000 {
        text::dec(secs / 86400) + "天"@
    } else {
        text::dec(secs / 86400 / 30) + "个月"@
    }
}

/// How long before `now` something was, both in seconds; what lies ahead was
/// just now.
pub fn relative_time(now_secs: u64, then_secs: u64) -> (r: String)
    ensures
        r@ == ago_of(less(now_secs as int, then_secs as int) as nat),
{
    let secs: u64 = now_secs.saturating_sub(then_secs);
    if secs < 60 {
        "刚刚".to_owned()
    } else if secs < 3600 {
        text::decimal(secs / 60).concat("分钟")
    } else if secs < 86400 {
        text::decimal(secs / 3600).concat("小时")
    } else if secs < 2592000 {
        text::decimal(secs / 86400).concat("天")
    } else {
        text::decimal(secs / 86400 / 30).concat("个月")
    }
}

/// A capacity in millions or thousands where it is a whole number of them.
pub open spec fn capacity_of(value: nat) -> Seq<char> {
    if value % 1000000 == 0 {
        text::dec(value / 1000000) + "M"@
    } else if value % 1000 == 0 {
        text::dec(value / 1000) + "K"@
    } else {
        text::dec(value)
    }
}

/// A capacity in millions or thousands where it is a whole number of them.
pub fn fmt_capacity(value: u64) -> (r: String)
    ensures
        r@ == capacity_of(value as nat),
{
    if value % 1000000 == 0 {
        text::decimal(value / 1000000).concat("M")
    } else if value % 1000 == 0 {
        text::decimal(value / 1000).concat("K")
    } else {
        text::decimal(value)
    }
}

// ---------------------------------------------------------------------------
// file sizes
// ---------------------------------------------------------------------------

/// `n / d` to the nearest whole number, a half to the even one.
pub open spec fn nearest_even(n: nat, d: nat) -> nat {
    let q = n / d;
    let r = n % d;
    if 2 * r > d || (2 * r == d && q % 2 == 1) {
        q + 1
    } else {
        q
    }
}

fn round_even(n: u128, d: u128) -> (r: u128)
    requires
        0 < d <= 0xffff_ffff_ffff_ffff,
        n <= 0xff_ffff_ffff_ffff_ffff_ffff,
    ensures
        r == nearest_even(n as nat, d as nat),
{
    let q: u128 = n / d;
    let rest: u128 = n % d;
    assert(rest < d) by (nonlinear_arith)
        requires
            d > 0,
            rest == n % d,
    ;
    assert(q <= n) by (nonlinear_arith)
        requires
            d > 0,
            q == n / d,
    ;
    if 2 * rest > d || (2 * rest == d && q % 2 == 1) {
        q + 1
    } else {
        q
    }
}

/// The distance of the doubles around `n`.
pub open spec fn double_step(n: u64) -> u64 {
    if n < 0x20000000000000 {
        1
    } else if n < 0x40000000000000 {
        2
    } else if n < 0x80000000000000 {
        4
    } else if n < 0x100000000000000 {
        8
    } else if n < 0x200000000000000 {
        16
    } else if n < 0x400000000000000 {
        32
    } else if n < 0x800000000000000 {
        64
    } else if n < 0x1000000000000000 {
        128
    } else if n < 0x2000000000000000 {
        256
    } else if n < 0x4000000000000000 {
        512
    } else if n < 0x8000000000000000 {
        1024
    } else {
        2048
    }
}

/// The number that a double holds of `n`: `n` to 53 significant binary digits.
pub open spec fn double_of(n: u64) -> nat {
    nearest_even(n as nat, double_step(n) as nat) * double_step(n) as nat
}

fn step_of(n: u64) -> (r: u64)
    ensures
        r == double_step(n),
        0 < r <= 2048,
{
    if n < 0x20000000000000 {
        1
    } else if n < 0x40000000000000 {
        2
    } else if n < 0x80000000000000 {
        4
    } else if n < 0x100000000000000 {
        8
    } else if n < 0x200000000000000 {
        16
    } else if n < 0x400000000000000 {
        32
    } else if n < 0x800000000000000 {
        64
    } else if n < 0x1000000000000000 {
        128
    } else if n < 0x2000000000000000 {
        256
    } else if n < 0x4000000000000000 {
        512
    } else if n < 0x8000000000000000 {
        1024
    } else {
        2048
    }
}

/// The number `n` of tenths with one decimal.
pub open spec fn tenths_of(n: nat) -> Seq<char> {
    text::dec(n / 10) + "."@ + text::dec(n % 10)
}

/// `n / d` with one decimal below 10, rounded to a whole number above.
pub open spec fn scaled_of(n: nat, d: nat) -> Seq<char> {
    if n < 10 * d {
        tenths_of(nearest_even(10 * n, d))
    } else {
        text::dec(nearest_even(n, d))
    }
}

/// A number of bytes in the largest unit that it makes at least one of.
pub open spec fn size_of_file(bytes: u64) -> Seq<char> {
    let n = double_of(bytes);
    if n < 1024 {
        text::dec(bytes as nat) + "B"@
    } else if n < 1048576 {
        scaled_of(n, 1024) + "KB"@
    } else if n < 1073741824 {
        scaled_of(n, 1048576) + "MB"@
    } else {
        scaled_of(n, 1073741824) + "GB"@
    }
}

fn scaled_text(n: u128, d: u128) -> (r: String)
    requires
        0 < d <= 1073741824,
        n <= 0x1_0000_0000_0000_1000,
        n / d <= 0x1_0000_0000_0000,
    ensures
        r@ == scaled_of(n as nat, d as nat),
{
    if n < 10 * d {
        let t: u128 = round_even(10 * n, d);
        assert((10 * n) / (d as int) <= 100) by (nonlinear_arith)
            requires
                n < 10 * d,
                d > 0,
        ;
        let whole: String = text::decimal((t / 10) as u64);
        let part: String = text::decimal((t % 10) as u64);
        text::concat3(whole.as_str(), ".", part.as_str())
    } else {
        let t: u128 = round_even(n, d);
        text::decimal(t as u64)
    }
}

/// A number of bytes in the largest unit that it makes at least one of, with
/// one decimal below 10.
pub fn file_size_text(bytes: u64) -> (r: String)
    ensures
        r@ == size_of_file(bytes),
{
    let step: u64 = step_of(bytes);
    let q: u128 = round_even(bytes as u128, step as u128);
    assert(q * step <= bytes + step) by (nonlinear_arith)
        requires
            step > 0,
            q <= (bytes as nat) / (step as nat) + 1,
    ;
    let n: u128 = q * (step as u128);
    if n < 1024 {
        text::decimal(bytes).concat("B")
    } else if n < 1048576 {
        scaled_text(n, 1024).concat("KB")
    } else if n < 1073741824 {
        scaled_text(n, 1048576).concat("MB")
    } else {
        scaled_text(n, 1073741824).concat("GB")
    }
}

// ---------------------------------------------------------------------------
// laws of the figures
// ---------------------------------------------------------------------------

/// A duration of `h` hours, `m` minutes and `s` seconds is written with these
/// numbers, whatever the milliseconds are.
pub proof fn duration_says_its_parts(h: nat, m: nat, s: nat, rest: nat)
    requires
        m < 60,
        s < 60,
        rest < 1000,
    ensures
        ({
            let d = duration_of(((h * 60 + m) * 60 + s) * 1000 + rest);
            &&& h > 0 ==> d == text::dec(h) + "小时"@ + text::padded(m, 2) + "分"@ + text::padded(
                s,
                2,
            ) + "秒"@
            &&& h == 0 && m > 0 ==> d == text::dec(m) + "分"@ + text::padded(s, 2) + "秒"@
            &&& h == 0 && m == 0 ==> d == text::dec(s) + "秒"@
        }),
{
    let ms = ((h * 60 + m) * 60 + s) * 1000 + rest;
    assert(ms / 1000 == (h * 60 + m) * 60 + s);
    assert(ms / 1000 / 60 == h * 60 + m);
    assert(ms / 1000 / 3600 == h);
}

/// What was `n` whole minutes, hours or days ago is told so, until the next
/// larger unit is reached.
pub proof fn past_is_told_in_whole_units(n: nat, rest: nat)
    ensures
        rest < 60 ==> ago_of(rest) == "刚刚"@,
        1 <= n < 60 && rest < 60 ==> ago_of(n * 60 + rest) == text::dec(n) + "分钟"@,
        1 <= n < 24 && rest < 3600 ==> ago_of(n * 3600 + rest) == text::dec(n) + "小时"@,
        1 <= n < 30 && rest < 86400 ==> ago_of(n * 86400 + rest) == text::dec(n) + "天"@,
        1 <= n && rest < 2592000 ==> ago_of(n * 2592000 + rest) == text::dec(n) + "个月"@,
{
}

/// A capacity of whole millions or thousands is written in them; any other is
/// written out.
pub proof fn capacity_is_whole(n: nat)
    ensures
        capacity_of(n * 1000000) == text::dec(n) + "M"@,
        n % 1000 != 0 ==> capacity_of(n * 1000) == text::dec(n) + "K"@,
        n % 1000 != 0 ==> text::number(capacity_of(n)) == n,
{
    text::lemma_dec_reads(n);
    assert((n * 1000) % 1000 == 0);
}

/// A share of `whole` percent and `tenth` tenths is written with both, and
/// without the tenths where there are none.
pub proof fn share_is_written_in_percent(whole: nat, tenth: nat)
    requires
        tenth < 10,
    ensures
        tenth > 0 ==> percent_of(whole * 10 + tenth) == text::dec(whole) + "."@ + text::dec(tenth),
        percent_of(whole * 10) == text::dec(whole),
        tenths_of(whole * 10 + tenth) == text::dec(whole) + "."@ + text::dec(tenth),
{
}

/// Milliseconds are written with their number, commas apart.
pub proof fn span_says_its_number(ms: u64)
    ensures
        text::finishes(span_of(Some(ms)), " 毫秒"@),
        ({
            let s = span_of(Some(ms));
            text::number(s.take(s.len() - 3).filter(|c: char| c != ',')) == ms
        }),
        span_of(None) == "—"@,
{
    reveal_strlit(" 毫秒");
    let d = text::dec(ms as nat);
    let s = span_of(Some(ms));
    text::lemma_dec_reads(ms as nat);
    assert(!d.contains(',')) by {
        if d.contains(',') {
            let i = choose|i: int| 0 <= i < d.len() && d[i] == ',';
            assert(text::is_digit(d[i]));
        }
    }
    text::grouping_adds_commas_only(d);
    assert(s.take(s.len() - 3) =~= text::grouped(d));
    assert(s.skip(s.len() - 3) =~= " 毫秒"@);
}

/// The nearest whole number is at most half of the divisor away, and the even
/// one where two are.
pub proof fn rounding_goes_to_the_nearest(n: nat, d: nat)
    requires
        d > 0,
    ensures
        2 * (nearest_even(n, d) * d) <= 2 * n + d,
        2 * n <= 2 * (nearest_even(n, d) * d) + d,
        2 * (nearest_even(n, d) * d) == 2 * n + d || 2 * n == 2 * (nearest_even(n, d) * d) + d
            ==> nearest_even(n, d) % 2 == 0,
{
    let q = n / d;
    let r = n % d;
    assert(n == q * d + r && r < d) by (nonlinear_arith)
        requires
            d > 0,
            q == n / d,
            r == n % d,
    ;
    assert((q + 1) * d == q * d + d) by (nonlinear_arith);
}

/// A double holds every number of up to 53 binary digits exactly, and of a
/// larger one the first 53.
pub proof fn double_keeps_53_digits(n: u64)
    ensures
        n < 0x20000000000000 ==> double_of(n) == n,
        n >= 0x20000000000000 ==> 0x10000000000000 <= n / double_step(n) < 0x20000000000000,
{
    if n < 0x20000000000000 {
        rounding_goes_to_the_nearest(n as nat, 1);
        assert(nearest_even(n as nat, 1) == n);
    } else if n < 0x40000000000000 {
        assert(0x10000000000000 <= n / 2 < 0x20000000000000);
    } else if n < 0x80000000000000 {
        assert(0x10000000000000 <= n / 4 < 0x20000000000000);
    } else if n < 0x100000000000000 {
        assert(0x10000000000000 <= n / 8 < 0x20000000000000);
    } else if n < 0x200000000000000 {
        assert(0x10000000000000 <= n / 16 < 0x20000000000000);
    } else if n < 0x400000000000000 {
        assert(0x10000000000000 <= n / 32 < 0x20000000000000);
    } else if n < 0x800000000000000 {
        assert(0x10000000000000 <= n / 64 < 0x20000000000000);
    } else if n < 0x1000000000000000 {
        assert(0x10000000000000 <= n / 128 < 0x20000000000000);
    } else if n < 0x2000000000000000 {
        assert(0x10000000000000 <= n / 256 < 0x20000000000000);
    } else if n < 0x4000000000000000 {
        assert(0x10000000000000 <= n / 512 < 0x20000000000000);
    } else if n < 0x8000000000000000 {
        assert(0x10000000000000 <= n / 1024 < 0x20000000000000);
    } else {
        assert(0x10000000000000 <= n / 2048 < 0x20000000000000);
    }
}

/// A size below the next unit is written in the unit: a small one with its
/// tenths, and a whole number of at least ten without.
pub proof fn size_is_written_in_its_unit(bytes: u64, n: nat)
    ensures
        bytes < 1024 ==> size_of_file(bytes) == text::dec(bytes as nat) + "B"@,
        1 <= n < 10 && bytes == n * 1024 ==> size_of_file(bytes) == text::dec(n) + "."@ + text::dec(
            0,
        ) + "KB"@,
        10 <= n < 1024 && bytes == n * 1024 ==> size_of_file(bytes) == text::dec(n) + "KB"@,
        1 <= n < 10 && bytes == n * 1048576 ==> size_of_file(bytes) == text::dec(n) + "."@
            + text::dec(0) + "MB"@,
        10 <= n < 1024 && bytes == n * 1048576 ==> size_of_file(bytes) == text::dec(n) + "MB"@,
        1 <= n < 10 && bytes == n * 1073741824 ==> size_of_file(bytes) == text::dec(n) + "."@
            + text::dec(0) + "GB"@,
        10 <= n < 1024 && bytes == n * 1073741824 ==> size_of_file(bytes) == text::dec(n) + "GB"@,
{
    if bytes < 0x20000000000000 {
        double_keeps_53_digits(bytes);
    }
}

} // verus!
