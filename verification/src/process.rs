//! What a group of tool calls was about, and the title shown for it.

use crate::json;
use crate::text;
use vstd::prelude::*;

verus! {

/// What a tool call is about.
#[derive(Clone, Copy, Debug, PartialEq, Eq, Hash, Structural)]
pub enum ProcessActivity {
    Read,
    Search,
    Edit,
    Commands,
    Code,
    WebSearch,
    WebFetch,
    Subagents,
    Plan,
    Questions,
    Tools,
}

/// The wording for finished work of a kind.
pub open spec fn done_text(k: ProcessActivity) -> Seq<char> {
    match k {
        ProcessActivity::Read => "已读取文件"@,
        ProcessActivity::Search => "已搜索代码"@,
        ProcessActivity::Edit => "修改了文件"@,
        ProcessActivity::Commands => "执行了命令"@,
        ProcessActivity::Code => "运行了代码"@,
        ProcessActivity::WebSearch => "已搜索网页"@,
        ProcessActivity::WebFetch => "已访问网页"@,
        ProcessActivity::Subagents => "已协调子任务"@,
        ProcessActivity::Plan => "更新了计划"@,
        ProcessActivity::Questions => "向用户提出了问题"@,
        ProcessActivity::Tools => "已调用工具"@,
    }
}

impl ProcessActivity {
    /// The wording for finished work of this kind.
    pub fn done_label(self) -> (r: &'static str)
        ensures
            r@ == done_text(self),
    {
        match self {
            ProcessActivity::Read => "已读取文件",
            ProcessActivity::Search => "已搜索代码",
            ProcessActivity::Edit => "修改了文件",
            ProcessActivity::Commands => "执行了命令",
            ProcessActivity::Code => "运行了代码",
            ProcessActivity::WebSearch => "已搜索网页",
            ProcessActivity::WebFetch => "已访问网页",
            ProcessActivity::Subagents => "已协调子任务",
            ProcessActivity::Plan => "更新了计划",
            ProcessActivity::Questions => "向用户提出了问题",
            ProcessActivity::Tools => "已调用工具",
        }
    }
}

/// What a call of the tool `name` is about, `op` being the operation that its
/// arguments name.
pub open spec fn activity_of(name: Seq<char>, op: Option<Seq<char>>) -> ProcessActivity {
    if name == "fs"@ {
        if op == Some("read"@) || op == Some("list"@) {
            ProcessActivity::Read
        } else if op == Some("write"@) {
            ProcessActivity::Edit
        } else {
            ProcessActivity::Tools
        }
    } else if name == "grep"@ || name == "glob"@ {
        ProcessActivity::Search
    } else if name == "shell"@ || name == "bash"@ || name == "pwsh"@ {
        ProcessActivity::Commands
    } else if name == "web_search"@ {
        ProcessActivity::WebSearch
    } else if name == "web_fetch"@ {
        ProcessActivity::WebFetch
    } else if name == "subagent"@ {
        ProcessActivity::Subagents
    } else if name == "todo_write"@ {
        ProcessActivity::Plan
    } else {
        ProcessActivity::Tools
    }
}

/// The operation that the arguments of a call name, in lower case.
pub open spec fn named_op(arguments: Option<json::JsonView>) -> Option<Seq<char>> {
    match json::text_in(json::member_of(arguments, "op"@)) {
        Some(op) => Some(text::lowered(op)),
        None => None,
    }
}

/// What a call is about, from the tool's name and its arguments.
pub open spec fn call_activity(name: Seq<char>, arguments: Seq<char>) -> ProcessActivity {
    activity_of(name, named_op(json::parsed_json(arguments)))
}

/// What a call of the tool `name` with operation `op` is about.
pub fn activity_for(name: &str, op: Option<&str>) -> (r: ProcessActivity)
    ensures
        r == activity_of(
            name@,
            match op {
                Some(op) => Some(op@),
                None => None,
            },
        ),
{
    if text::same(name, "fs") {
        match op {
            Some(op) => {
                if text::same(op, "read") || text::same(op, "list") {
                    ProcessActivity::Read
                } else if text::same(op, "write") {
                    ProcessActivity::Edit
                } else {
                    ProcessActivity::Tools
                }
            },
            None => ProcessActivity::Tools,
        }
    } else if text::same(name, "grep") || text::same(name, "glob") {
        ProcessActivity::Search
    } else if text::same(name, "shell") || text::same(name, "bash") || text::same(name, "pwsh") {
        ProcessActivity::Commands
    } else if text::same(name, "web_search") {
        ProcessActivity::WebSearch
    } else if text::same(name, "web_fetch") {
        ProcessActivity::WebFetch
    } else if text::same(name, "subagent") {
        ProcessActivity::Subagents
    } else if text::same(name, "todo_write") {
        ProcessActivity::Plan
    } else {
        ProcessActivity::Tools
    }
}

/// The operation that parsed arguments name, in lower case.
pub fn op_of(arguments: &Option<json::Json>) -> (r: Option<String>)
    ensures
        r.deep_view() == named_op(arguments.deep_view()),
{
    match arguments {
        Some(v) => match v.get("op") {
            Some(op) => match op.as_text() {
                Some(op) => Some(text::lower_text(op.as_str())),
                None => None,
            },
            None => None,
        },
        None => None,
    }
}

/// What a call is about, from the tool's name and its arguments.
pub fn process_activity(name: &str, arguments: &str) -> (r: ProcessActivity)
    ensures
        r == call_activity(name@, arguments@),
{
    let parsed: Option<json::Json> = json::parse_json(arguments);
    match op_of(&parsed) {
        Some(op) => activity_for(name, Some(op.as_str())),
        None => activity_for(name, None),
    }
}

// ---------------------------------------------------------------------------
// titles
// ---------------------------------------------------------------------------

/// The wordings of the kinds, in order.
pub open spec fn labels_of(activities: Seq<(ProcessActivity, usize)>) -> Seq<Seq<char>> {
    activities.map_values(|a: (ProcessActivity, usize)| done_text(a.0))
}

/// The title for a list of wordings: one stands alone; two are joined by a
/// word, the second without a first character that both share; more are
/// listed, and a list of more than three ends open.
pub open spec fn title_of(labels: Seq<Seq<char>>) -> Seq<char> {
    if labels.len() == 0 {
        "已完成分析"@
    } else if labels.len() == 1 {
        labels[0]
    } else if labels.len() == 2 {
        if text::begins(labels[0], "已"@) && text::begins(labels[1], "已"@) {
            labels[0] + "并"@ + labels[1].skip("已"@.len() as int)
        } else {
            labels[0] + "并"@ + labels[1]
        }
    } else if labels.len() == 3 {
        text::joined(labels, "，"@)
    } else {
        text::joined(labels, "，"@) + "等"@
    }
}

/// The title of a finished group, from its kinds in order of weight.
pub fn process_title(activities: &[(ProcessActivity, usize)]) -> (r: String)
    ensures
        r@ == title_of(labels_of(activities@)),
{
    let n: usize = activities.len();
    if n == 0 {
        return "已完成分析".to_owned();
    }
    let first: &str = activities[0].0.done_label();
    if n == 1 {
        return first.to_owned();
    }
    if n == 2 {
        let second: &str = activities[1].0.done_label();
        if text::starts_with(first, "已") {
            match text::strip_prefix(second, "已") {
                Some(rest) => {
                    return text::concat3(first, "并", rest.as_str());
                },
                None => {},
            }
        }
        return text::concat3(first, "并", second);
    }
    let mut labels: Vec<String> = Vec::new();
    let mut i: usize = 0;
    while i < n
        invariant
            n == activities@.len(),
            i <= n,
            labels.deep_view() == labels_of(activities@).take(i as int),
        decreases n - i,
    {
        let ghost before = labels.deep_view();
        let label: String = activities[i].0.done_label().to_owned();
        labels.push(label);
        assert(labels.deep_view() =~= before.push(label@));
        i = i + 1;
        assert(labels.deep_view() =~= labels_of(activities@).take(i as int));
    }
    assert(labels_of(activities@).take(n as int) =~= labels_of(activities@));
    let title: String = text::join(&labels, "，");
    if n > 3 {
        title.concat("等")
    } else {
        title
    }
}

// ---------------------------------------------------------------------------
// counts
// ---------------------------------------------------------------------------

/// The calls as pairs of call id and kind.
pub open spec fn calls_view(calls: Seq<(String, String, String)>) -> Seq<
    (Seq<char>, ProcessActivity),
> {
    calls.map_values(|c: (String, String, String)| (c.0@, call_activity(c.1@, c.2@)))
}

/// Whether a call with this id is among `calls`.
pub open spec fn met(calls: Seq<(Seq<char>, ProcessActivity)>, id: Seq<char>) -> bool {
    exists|i: int| 0 <= i < calls.len() && (#[trigger] calls[i]).0 == id
}

/// The kinds of the calls, each call id counted once, at its first call.
pub open spec fn distinct_kinds(calls: Seq<(Seq<char>, ProcessActivity)>) -> Seq<ProcessActivity>
    decreases calls.len(),
{
    if calls.len() == 0 {
        Seq::empty()
    } else if met(calls.drop_last(), calls.last().0) {
        distinct_kinds(calls.drop_last())
    } else {
        distinct_kinds(calls.drop_last()).push(calls.last().1)
    }
}

/// How often `k` stands in `kinds`.
pub open spec fn occurrences(kinds: Seq<ProcessActivity>, k: ProcessActivity) -> nat
    decreases kinds.len(),
{
    if kinds.len() == 0 {
        0
    } else {
        occurrences(kinds.drop_last(), k) + (if kinds.last() == k {
            1nat
        } else {
            0nat
        })
    }
}

/// Where `k` stands first in `kinds`.
pub open spec fn first_place(kinds: Seq<ProcessActivity>, k: ProcessActivity) -> int
    decreases kinds.len(),
{
    if kinds.len() == 0 {
        0
    } else if kinds.drop_last().contains(k) {
        first_place(kinds.drop_last(), k)
    } else {
        kinds.len() - 1
    }
}

/// Whether `a` is listed before `b`: more calls first, and with as many calls
/// the kind that was met first.
pub open spec fn outranks(
    kinds: Seq<ProcessActivity>,
    a: (ProcessActivity, usize),
    b: (ProcessActivity, usize),
) -> bool {
    a.1 > b.1 || (a.1 == b.1 && first_place(kinds, a.0) < first_place(kinds, b.0))
}

/// Whether `out` lists each kind of `kinds` once, with its number of calls, in
/// rank order.
pub open spec fn ranks(kinds: Seq<ProcessActivity>, out: Seq<(ProcessActivity, usize)>) -> bool {
    &&& forall|i: int|
        0 <= i < out.len() ==> (#[trigger] out[i]).1 == occurrences(kinds, out[i].0) && out[i].1
            > 0
    &&& forall|k: ProcessActivity|
        kinds.contains(k) ==> exists|i: int| 0 <= i < out.len() && (#[trigger] out[i]).0 == k
    &&& forall|i: int, j: int|
        0 <= i < j < out.len() ==> outranks(kinds, #[trigger] out[i], #[trigger] out[j])
}

proof fn lemma_occurrences(kinds: Seq<ProcessActivity>, k: ProcessActivity)
    ensures
        (occurrences(kinds, k) > 0) == kinds.contains(k),
        occurrences(kinds, k) <= kinds.len(),
        kinds.contains(k) ==> 0 <= first_place(kinds, k) < kinds.len() && kinds[first_place(
            kinds,
            k,
        )] == k,
    decreases kinds.len(),
{
    if kinds.len() > 0 {
        let head = kinds.drop_last();
        lemma_occurrences(head, k);
        assert(kinds =~= head.push(kinds.last()));
        if head.contains(k) {
            let i = choose|i: int| 0 <= i < head.len() && head[i] == k;
            assert(kinds[i] == k);
        }
        if kinds.contains(k) && kinds.last() != k {
            let i = choose|i: int| 0 <= i < kinds.len() && kinds[i] == k;
            assert(head[i] == k);
        }
    }
}

/// The kinds in the order they were met first, each with its number of calls.
spec fn tallied(kinds: Seq<ProcessActivity>, out: Seq<(ProcessActivity, usize)>) -> bool {
    &&& forall|i: int|
        0 <= i < out.len() ==> (#[trigger] out[i]).1 == occurrences(kinds, out[i].0) && out[i].1
            > 0
    &&& forall|k: ProcessActivity|
        kinds.contains(k) ==> exists|i: int| 0 <= i < out.len() && (#[trigger] out[i]).0 == k
    &&& forall|i: int, j: int|
        0 <= i < j < out.len() ==> first_place(kinds, (#[trigger] out[i]).0) < first_place(
            kinds,
            (#[trigger] out[j]).0,
        )
}

proof fn lemma_first_place_stays(kinds: Seq<ProcessActivity>, k: ProcessActivity, x: ProcessActivity)
    requires
        kinds.contains(k),
    ensures
        first_place(kinds.push(x), k) == first_place(kinds, k),
        occurrences(kinds.push(x), k) == occurrences(kinds, k) + (if x == k {
            1nat
        } else {
            0nat
        }),
{
    assert(kinds.push(x).drop_last() =~= kinds);
}

/// Counts one more call of kind `k`.
fn tally(out: &mut Vec<(ProcessActivity, usize)>, kinds: Ghost<Seq<ProcessActivity>>, k: ProcessActivity)
    requires
        tallied(kinds@, old(out)@),
        kinds@.len() < usize::MAX,
    ensures
        tallied(kinds@.push(k), final(out)@),
{
    let ghost before = out@;
    let ghost more = kinds@.push(k);
    proof {
        assert(more.drop_last() =~= kinds@);
        lemma_occurrences(kinds@, k);
        assert forall|i: int| 0 <= i < before.len() implies kinds@.contains(
            (#[trigger] before[i]).0,
        ) by {
            lemma_occurrences(kinds@, before[i].0);
        }
        assert forall|x: ProcessActivity| more.contains(x) implies x == k || kinds@.contains(x) by {
            let i = choose|i: int| 0 <= i < more.len() && more[i] == x;
            if i < kinds@.len() {
                assert(kinds@[i] == x);
            }
        }
    }
    let mut i: usize = 0;
    while i < out.len()
        invariant
            i <= out@.len(),
            out@ == before,
            more == kinds@.push(k),
            tallied(kinds@, before),
            kinds@.len() < usize::MAX,
            occurrences(kinds@, k) <= kinds@.len(),
            forall|x: ProcessActivity| more.contains(x) ==> x == k || kinds@.contains(x),
            forall|j: int| 0 <= j < before.len() ==> kinds@.contains((#[trigger] before[j]).0),
            forall|j: int| 0 <= j < i ==> (#[trigger] before[j]).0 != k,
        decreases out@.len() - i,
    {
        if out[i].0 == k {
            let n: usize = out[i].1 + 1;
            out[i] = (k, n);
            proof {
                assert forall|j: int| 0 <= j < out@.len() implies (#[trigger] out@[j]).1
                    == occurrences(more, out@[j].0) && out@[j].1 > 0 by {
                    lemma_first_place_stays(kinds@, before[j].0, k);
                    if j != i && before[j].0 == k {
                        let a = if j < i { j } else { i as int };
                        let b = if j < i { i as int } else { j };
                        assert(first_place(kinds@, before[a].0) < first_place(kinds@, before[b].0));
                    }
                }
                assert forall|x: ProcessActivity| more.contains(x) implies exists|j: int|
                    0 <= j < out@.len() && (#[trigger] out@[j]).0 == x by {
                    if x == k {
                        assert(out@[i as int].0 == k);
                    } else {
                        let j = choose|j: int| 0 <= j < before.len() && (#[trigger] before[j]).0 == x;
                        assert(out@[j].0 == x);
                    }
                }
                assert forall|a: int, b: int| 0 <= a < b < out@.len() implies first_place(
                    more,
                    (#[trigger] out@[a]).0,
                ) < first_place(more, (#[trigger] out@[b]).0) by {
                    lemma_first_place_stays(kinds@, before[a].0, k);
                    lemma_first_place_stays(kinds@, before[b].0, k);
                    assert(out@[a].0 == before[a].0);
                    assert(out@[b].0 == before[b].0);
                }
            }
            return;
        }
        i = i + 1;
    }
    out.push((k, 1));
    proof {
        assert(!kinds@.contains(k));
        assert(first_place(more, k) == kinds@.len());
        assert forall|j: int| 0 <= j < out@.len() implies (#[trigger] out@[j]).1 == occurrences(
            more,
            out@[j].0,
        ) && out@[j].1 > 0 by {
            if j < before.len() {
                assert(out@[j] == before[j]);
                lemma_first_place_stays(kinds@, before[j].0, k);
            }
        }
        assert forall|x: ProcessActivity| more.contains(x) implies exists|j: int|
            0 <= j < out@.len() && (#[trigger] out@[j]).0 == x by {
            if x == k {
                assert(out@[before.len() as int].0 == k);
            } else {
                let j = choose|j: int| 0 <= j < before.len() && (#[trigger] before[j]).0 == x;
                assert(out@[j].0 == x);
            }
        }
        assert forall|a: int, b: int| 0 <= a < b < out@.len() implies first_place(
            more,
            (#[trigger] out@[a]).0,
        ) < first_place(more, (#[trigger] out@[b]).0) by {
            assert(out@[a] == before[a]);
            lemma_first_place_stays(kinds@, before[a].0, k);
            lemma_occurrences(kinds@, before[a].0);
            if b < before.len() {
                assert(out@[b] == before[b]);
                lemma_first_place_stays(kinds@, before[b].0, k);
            }
        }
    }
}

/// Whether `x` is among the first `n` of `s`.
spec fn among(s: Seq<(ProcessActivity, usize)>, n: int, x: (ProcessActivity, usize)) -> bool {
    exists|i: int| 0 <= i < n && s[i] == x
}

/// Whether `r` holds the first `n` of `tally` in rank order.
spec fn sorted_part(
    kinds: Seq<ProcessActivity>,
    tally: Seq<(ProcessActivity, usize)>,
    n: int,
    r: Seq<(ProcessActivity, usize)>,
) -> bool {
    &&& forall|a: int| 0 <= a < r.len() ==> among(tally, n, #[trigger] r[a])
    &&& forall|b: int| 0 <= b < n ==> among(r, r.len() as int, #[trigger] tally[b])
    &&& forall|a: int, b: int|
        0 <= a < b < r.len() ==> outranks(kinds, #[trigger] r[a], #[trigger] r[b])
}

proof fn lemma_sorted_insert(
    kinds: Seq<ProcessActivity>,
    tally: Seq<(ProcessActivity, usize)>,
    n: int,
    r: Seq<(ProcessActivity, usize)>,
    p: int,
)
    requires
        tallied(kinds, tally),
        0 <= n < tally.len(),
        sorted_part(kinds, tally, n, r),
        0 <= p <= r.len(),
        forall|a: int| 0 <= a < p ==> (#[trigger] r[a]).1 >= tally[n].1,
        p < r.len() ==> r[p].1 < tally[n].1,
    ensures
        sorted_part(kinds, tally, n + 1, r.insert(p, tally[n])),
{
    let e = tally[n];
    let s = r.insert(p, e);
    assert forall|a: int| 0 <= a < s.len() implies among(tally, n + 1, #[trigger] s[a]) by {
        if a == p {
            assert(tally[n] == s[a]);
        } else {
            let o = if a < p { a } else { a - 1 };
            assert(s[a] == r[o]);
            assert(among(tally, n, r[o]));
            let b = choose|b: int| 0 <= b < n && tally[b] == r[o];
            assert(tally[b] == s[a]);
        }
    }
    assert forall|b: int| 0 <= b < n + 1 implies among(s, s.len() as int, #[trigger] tally[b]) by {
        if b == n {
            assert(s[p] == tally[b]);
        } else {
            assert(among(r, r.len() as int, tally[b]));
            let o = choose|o: int| 0 <= o < r.len() && r[o] == tally[b];
            let a = if o < p { o } else { o + 1 };
            assert(s[a] == tally[b]);
        }
    }
    assert forall|a: int, b: int| 0 <= a < b < s.len() implies outranks(
        kinds,
        #[trigger] s[a],
        #[trigger] s[b],
    ) by {
        let x = if a < p { a } else { a - 1 };
        let y = if b < p { b } else { b - 1 };
        if b == p {
            assert(s[a] == r[x]);
            assert(among(tally, n, r[x]));
            let c = choose|c: int| 0 <= c < n && tally[c] == r[x];
            assert(first_place(kinds, tally[c].0) < first_place(kinds, tally[n].0));
        } else if a == p {
            assert(s[b] == r[y]);
            if y > p {
                assert(outranks(kinds, r[p], r[y]));
            }
        } else {
            assert(s[a] == r[x]);
            assert(s[b] == r[y]);
        }
    }
}

proof fn lemma_sorted_whole(
    kinds: Seq<ProcessActivity>,
    tally: Seq<(ProcessActivity, usize)>,
    r: Seq<(ProcessActivity, usize)>,
)
    requires
        tallied(kinds, tally),
        sorted_part(kinds, tally, tally.len() as int, r),
    ensures
        ranks(kinds, r),
{
    let n = tally.len() as int;
    assert forall|a: int| 0 <= a < r.len() implies (#[trigger] r[a]).1 == occurrences(
        kinds,
        r[a].0,
    ) && r[a].1 > 0 by {
        assert(among(tally, n, r[a]));
        let b = choose|b: int| 0 <= b < n && tally[b] == r[a];
        assert(tally[b].1 == occurrences(kinds, tally[b].0));
    }
    assert forall|k: ProcessActivity| kinds.contains(k) implies exists|a: int|
        0 <= a < r.len() && (#[trigger] r[a]).0 == k by {
        let b = choose|b: int| 0 <= b < tally.len() && (#[trigger] tally[b]).0 == k;
        assert(among(r, r.len() as int, tally[b]));
        let a = choose|a: int| 0 <= a < r.len() && r[a] == tally[b];
        assert(r[a].0 == k);
    }
}

/// Sorts a tally by number of calls.
fn rank_tally(tally: &Vec<(ProcessActivity, usize)>, kinds: Ghost<Seq<ProcessActivity>>) -> (r: Vec<
    (ProcessActivity, usize),
>)
    requires
        tallied(kinds@, tally@),
    ensures
        ranks(kinds@, r@),
{
    let mut r: Vec<(ProcessActivity, usize)> = Vec::new();
    let mut i: usize = 0;
    while i < tally.len()
        invariant
            i <= tally@.len(),
            tallied(kinds@, tally@),
            sorted_part(kinds@, tally@, i as int, r@),
        decreases tally@.len() - i,
    {
        let e: (ProcessActivity, usize) = tally[i];
        let mut p: usize = 0;
        while p < r.len() && r[p].1 >= e.1
            invariant
                p <= r@.len(),
                forall|a: int| 0 <= a < p ==> (#[trigger] r@[a]).1 >= e.1,
            decreases r@.len() - p,
        {
            p = p + 1;
        }
        proof {
            lemma_sorted_insert(kinds@, tally@, i as int, r@, p as int);
        }
        r.insert(p, e);
        i = i + 1;
    }
    proof {
        lemma_sorted_whole(kinds@, tally@, r@);
    }
    r
}

fn in_list(list: &Vec<String>, id: &str) -> (r: bool)
    ensures
        r == list.deep_view().contains(id@),
{
    let mut i: usize = 0;
    while i < list.len()
        invariant
            i <= list@.len(),
            forall|k: int| 0 <= k < i ==> list@[k]@ != id@,
        decreases list@.len() - i,
    {
        if text::same(list[i].as_str(), id) {
            assert(list.deep_view()[i as int] == id@);
            return true;
        }
        i = i + 1;
    }
    assert forall|k: int| 0 <= k < list.deep_view().len() implies list.deep_view()[k] != id@ by {
        assert(list.deep_view()[k] == list@[k]@);
    }
    false
}

/// The kinds of the calls with their numbers of calls: a call id counts once,
/// more calls come first, and with as many calls the kind met first.
///
/// Each call is its id, the tool's name and the arguments.
pub fn process_activity_counts(calls: Vec<(String, String, String)>) -> (r: Vec<
    (ProcessActivity, usize),
>)
    ensures
        ranks(distinct_kinds(calls_view(calls@)), r@),
{
    let mut seen: Vec<String> = Vec::new();
    let mut out: Vec<(ProcessActivity, usize)> = Vec::new();
    let ghost all = calls_view(calls@);
    let mut i: usize = 0;
    assert(all.take(0) =~= Seq::<(Seq<char>, ProcessActivity)>::empty());
    while i < calls.len()
        invariant
            i <= calls@.len(),
            all == calls_view(calls@),
            tallied(distinct_kinds(all.take(i as int)), out@),
            distinct_kinds(all.take(i as int)).len() <= i,
            forall|id: Seq<char>| #[trigger]
                seen.deep_view().contains(id) == met(all.take(i as int), id),
        decreases calls@.len() - i,
    {
        let ghost head = all.take(i as int);
        let ghost next = all.take(i + 1);
        assert(next.drop_last() =~= head);
        assert(next.last() == all[i as int]);
        let id: &String = &calls[i].0;
        let known: bool = in_list(&seen, id.as_str());
        if !known {
            let kind: ProcessActivity = process_activity(calls[i].1.as_str(), calls[i].2.as_str());
            tally(&mut out, Ghost(distinct_kinds(head)), kind);
            let ghost before = seen.deep_view();
            seen.push(id.clone());
            assert(seen.deep_view() =~= before.push(id@));
            assert forall|x: Seq<char>| #[trigger]
                seen.deep_view().contains(x) == met(next, x) by {
                lemma_met_push(head, all[i as int], x);
                assert(next =~= head.push(all[i as int]));
                assert(before.push(id@).contains(x) == (before.contains(x) || x == id@)) by {
                    lemma_contains_push(before, id@, x);
                }
            }
        } else {
            assert forall|x: Seq<char>| #[trigger]
                seen.deep_view().contains(x) == met(next, x) by {
                lemma_met_push(head, all[i as int], x);
                assert(next =~= head.push(all[i as int]));
            }
        }
        i = i + 1;
    }
    assert(all.take(i as int) =~= all);
    rank_tally(&out, Ghost(distinct_kinds(all)))
}

proof fn lemma_met_push(
    calls: Seq<(Seq<char>, ProcessActivity)>,
    c: (Seq<char>, ProcessActivity),
    id: Seq<char>,
)
    ensures
        met(calls.push(c), id) == (met(calls, id) || c.0 == id),
{
    let more = calls.push(c);
    if met(calls, id) {
        let i = choose|i: int| 0 <= i < calls.len() && (#[trigger] calls[i]).0 == id;
        assert(more[i].0 == id);
    }
    if c.0 == id {
        assert(more[calls.len() as int].0 == id);
    }
    if met(more, id) && c.0 != id {
        let i = choose|i: int| 0 <= i < more.len() && (#[trigger] more[i]).0 == id;
        assert(calls[i].0 == id);
    }
}

proof fn lemma_contains_push(s: Seq<Seq<char>>, x: Seq<char>, y: Seq<char>)
    ensures
        s.push(x).contains(y) == (s.contains(y) || x == y),
{
    let t = s.push(x);
    if s.contains(y) {
        let i = choose|i: int| 0 <= i < s.len() && s[i] == y;
        assert(t[i] == y);
    }
    if x == y {
        assert(t[s.len() as int] == y);
    }
    if t.contains(y) && x != y {
        let i = choose|i: int| 0 <= i < t.len() && t[i] == y;
        assert(s[i] == y);
    }
}

/// Calling again under an id that was met changes nothing.
pub proof fn repeated_call_counts_once(
    calls: Seq<(Seq<char>, ProcessActivity)>,
    again: (Seq<char>, ProcessActivity),
)
    requires
        met(calls, again.0),
    ensures
        distinct_kinds(calls.push(again)) == distinct_kinds(calls),
{
    assert(calls.push(again).drop_last() =~= calls);
}

/// Calls under ids that were met change nothing, however many there are and
/// whatever they call.
pub proof fn repeated_calls_change_nothing(
    calls: Seq<(Seq<char>, ProcessActivity)>,
    again: Seq<(Seq<char>, ProcessActivity)>,
)
    requires
        forall|i: int| 0 <= i < again.len() ==> met(calls, (#[trigger] again[i]).0),
    ensures
        distinct_kinds(calls + again) == distinct_kinds(calls),
    decreases again.len(),
{
    let all = calls + again;
    if again.len() == 0 {
        assert(all =~= calls);
    } else {
        let fewer = again.drop_last();
        assert forall|i: int| 0 <= i < fewer.len() implies met(calls, (#[trigger] fewer[i]).0) by {
            assert(fewer[i] == again[i]);
        }
        repeated_calls_change_nothing(calls, fewer);
        let id = again[again.len() - 1].0;
        assert(all.drop_last() =~= calls + fewer);
        assert(met(calls, id));
        let i = choose|i: int| 0 <= i < calls.len() && (#[trigger] calls[i]).0 == id;
        assert((calls + fewer)[i].0 == id);
    }
}

/// The ids of calls.
pub open spec fn ids_of(calls: Seq<(Seq<char>, ProcessActivity)>) -> Set<Seq<char>> {
    calls.map_values(|c: (Seq<char>, ProcessActivity)| c.0).to_set()
}

/// Each id counts once.
proof fn lemma_distinct_len(calls: Seq<(Seq<char>, ProcessActivity)>)
    ensures
        ids_of(calls).finite(),
        distinct_kinds(calls).len() == ids_of(calls).len(),
    decreases calls.len(),
{
    let ids = calls.map_values(|c: (Seq<char>, ProcessActivity)| c.0);
    if calls.len() == 0 {
        assert(ids_of(calls) =~= Set::empty());
    } else {
        let head = calls.drop_last();
        let before = head.map_values(|c: (Seq<char>, ProcessActivity)| c.0);
        lemma_distinct_len(head);
        let id = calls.last().0;
        assert(ids =~= before.push(id));
        assert(ids_of(calls) =~= ids_of(head).insert(id)) by {
            assert forall|x: Seq<char>| #[trigger] ids_of(calls).contains(x) == ids_of(
                head,
            ).insert(id).contains(x) by {
                lemma_contains_push(before, id, x);
            }
        }
        assert(met(head, id) == ids_of(head).contains(id)) by {
            if met(head, id) {
                let i = choose|i: int| 0 <= i < head.len() && (#[trigger] head[i]).0 == id;
                assert(before[i] == id);
            }
            if before.contains(id) {
                let i = choose|i: int| 0 <= i < before.len() && before[i] == id;
                assert(head[i].0 == id);
            }
        }
    }
}

/// The numbers of a list of counts, added up.
pub open spec fn counted(out: Seq<(ProcessActivity, usize)>) -> nat
    decreases out.len(),
{
    if out.len() == 0 {
        0
    } else {
        counted(out.drop_last()) + out.last().1 as nat
    }
}

/// How often the kinds of a list stand in `kinds`, added up.
spec fn covered(kinds: Seq<ProcessActivity>, out: Seq<(ProcessActivity, usize)>) -> nat
    decreases out.len(),
{
    if out.len() == 0 {
        0
    } else {
        covered(kinds, out.drop_last()) + occurrences(kinds, out.last().0)
    }
}

/// Whether no kind is listed twice.
spec fn listed_once(out: Seq<(ProcessActivity, usize)>) -> bool {
    forall|i: int, j: int| 0 <= i < j < out.len() ==> (#[trigger] out[i]).0 != (#[trigger] out[j]).0
}

proof fn lemma_covered_push(
    kinds: Seq<ProcessActivity>,
    x: ProcessActivity,
    out: Seq<(ProcessActivity, usize)>,
)
    requires
        listed_once(out),
    ensures
        covered(kinds.push(x), out) == covered(kinds, out) + (if exists|i: int|
            0 <= i < out.len() && (#[trigger] out[i]).0 == x {
            1nat
        } else {
            0nat
        }),
    decreases out.len(),
{
    if out.len() > 0 {
        let head = out.drop_last();
        assert(listed_once(head)) by {
            assert forall|i: int, j: int| 0 <= i < j < head.len() implies (#[trigger] head[i]).0
                != (#[trigger] head[j]).0 by {
                assert(out[i].0 != out[j].0);
            }
        }
        lemma_covered_push(kinds, x, head);
        assert(kinds.push(x).drop_last() =~= kinds);
        let n = out.len() - 1;
        if exists|i: int| 0 <= i < head.len() && (#[trigger] head[i]).0 == x {
            let i = choose|i: int| 0 <= i < head.len() && (#[trigger] head[i]).0 == x;
            assert(out[i].0 == x);
            assert(out[n].0 != x);
        } else {
            if exists|i: int| 0 <= i < out.len() && (#[trigger] out[i]).0 == x {
                let i = choose|i: int| 0 <= i < out.len() && (#[trigger] out[i]).0 == x;
                if i < n {
                    assert(head[i].0 == x);
                }
            }
            if out[n].0 == x {
                assert(exists|i: int| 0 <= i < out.len() && (#[trigger] out[i]).0 == x);
            }
        }
    }
}

proof fn lemma_covered(kinds: Seq<ProcessActivity>, out: Seq<(ProcessActivity, usize)>)
    requires
        listed_once(out),
        forall|k: ProcessActivity|
            kinds.contains(k) ==> exists|i: int| 0 <= i < out.len() && (#[trigger] out[i]).0 == k,
    ensures
        covered(kinds, out) == kinds.len(),
    decreases kinds.len(),
{
    if kinds.len() == 0 {
        lemma_nothing_covered(kinds, out);
    } else {
        let head = kinds.drop_last();
        let x = kinds.last();
        assert(kinds =~= head.push(x));
        assert(kinds.contains(x));
        assert forall|k: ProcessActivity| head.contains(k) implies exists|i: int|
            0 <= i < out.len() && (#[trigger] out[i]).0 == k by {
            let j = choose|j: int| 0 <= j < head.len() && head[j] == k;
            assert(kinds[j] == k);
            assert(kinds.contains(k));
        }
        lemma_covered(head, out);
        lemma_covered_push(head, x, out);
    }
}

proof fn lemma_nothing_covered(kinds: Seq<ProcessActivity>, out: Seq<(ProcessActivity, usize)>)
    requires
        kinds.len() == 0,
    ensures
        covered(kinds, out) == 0,
    decreases out.len(),
{
    if out.len() > 0 {
        lemma_nothing_covered(kinds, out.drop_last());
    }
}

proof fn lemma_counted(kinds: Seq<ProcessActivity>, out: Seq<(ProcessActivity, usize)>)
    requires
        forall|i: int| 0 <= i < out.len() ==> (#[trigger] out[i]).1 == occurrences(kinds, out[i].0),
    ensures
        counted(out) == covered(kinds, out),
    decreases out.len(),
{
    if out.len() > 0 {
        let head = out.drop_last();
        assert forall|i: int| 0 <= i < head.len() implies (#[trigger] head[i]).1 == occurrences(
            kinds,
            head[i].0,
        ) by {
            assert(head[i] == out[i]);
        }
        lemma_counted(kinds, head);
        assert(out[out.len() - 1].1 == occurrences(kinds, out[out.len() - 1].0));
    }
}

/// The counts add up to the number of calls with different ids.
pub proof fn counts_add_up(
    calls: Seq<(Seq<char>, ProcessActivity)>,
    out: Seq<(ProcessActivity, usize)>,
)
    requires
        ranks(distinct_kinds(calls), out),
    ensures
        counted(out) == ids_of(calls).len(),
{
    let kinds = distinct_kinds(calls);
    lemma_distinct_len(calls);
    assert(listed_once(out)) by {
        assert forall|i: int, j: int| 0 <= i < j < out.len() implies (#[trigger] out[i]).0 != (
        #[trigger] out[j]).0 by {
            assert(outranks(kinds, out[i], out[j]));
        }
    }
    lemma_counted(kinds, out);
    lemma_covered(kinds, out);
}

/// A ranking is determined by the kinds: two lists that rank the same kinds
/// are the same.
pub proof fn ranking_is_unique(
    kinds: Seq<ProcessActivity>,
    a: Seq<(ProcessActivity, usize)>,
    b: Seq<(ProcessActivity, usize)>,
)
    requires
        ranks(kinds, a),
        ranks(kinds, b),
    ensures
        a == b,
{
    lemma_ranking_prefix(kinds, a, b, a.len() as int);
    lemma_ranking_prefix(kinds, b, a, b.len() as int);
    if a.len() < b.len() {
        lemma_ranking_prefix(kinds, b, a, b.len() as int);
    }
    assert(a =~= b);
}

proof fn lemma_ranking_prefix(
    kinds: Seq<ProcessActivity>,
    a: Seq<(ProcessActivity, usize)>,
    b: Seq<(ProcessActivity, usize)>,
    n: int,
)
    requires
        ranks(kinds, a),
        ranks(kinds, b),
        0 <= n <= a.len(),
    ensures
        n <= b.len(),
        forall|i: int| 0 <= i < n ==> a[i] == b[i],
    decreases n,
{
    if n > 0 {
        lemma_ranking_prefix(kinds, a, b, n - 1);
        let x = a[n - 1];
        lemma_occurrences(kinds, x.0);
        let j = choose|j: int| 0 <= j < b.len() && (#[trigger] b[j]).0 == x.0;
        assert(b[j] == x);
        if j < n - 1 {
            assert(a[j] == b[j]);
            assert(outranks(kinds, a[j], a[n - 1]));
        }
        if j > n - 1 {
            let y = b[n - 1];
            assert(outranks(kinds, b[n - 1], b[j]));
            lemma_occurrences(kinds, y.0);
            let i = choose|i: int| 0 <= i < a.len() && (#[trigger] a[i]).0 == y.0;
            assert(a[i] == y);
            if i < n - 1 {
                assert(b[i] == a[i]);
                assert(outranks(kinds, b[i], b[n - 1]));
            } else if i > n - 1 {
                assert(outranks(kinds, a[n - 1], a[i]));
            }
        }
    }
}

/// Every label that a title is made of stands in it; a single one is the title.
/// Of two the second may lose its first character.
pub proof fn title_names_every_activity(labels: Seq<Seq<char>>, k: int)
    requires
        0 <= k < labels.len(),
    ensures
        labels.len() == 1 ==> title_of(labels) == labels[0],
        labels.len() == 2 ==> text::begins(title_of(labels), labels[0]) && (text::finishes(
            title_of(labels),
            labels[1],
        ) || (text::begins(labels[1], "已"@) && text::finishes(
            title_of(labels),
            labels[1].skip(1),
        ))),
        labels.len() != 2 ==> text::holds_text(title_of(labels), labels[k]),
{
    reveal_strlit("已");
    let title = title_of(labels);
    if labels.len() == 1 {
        assert(title.subrange(0, title.len() as int) =~= labels[0]);
        assert(text::stands_at(title, labels[k], 0));
    } else if labels.len() == 2 {
        assert(title.take(labels[0].len() as int) =~= labels[0]);
        if text::begins(labels[0], "已"@) && text::begins(labels[1], "已"@) {
            let tail = labels[1].skip(1);
            assert(title.skip(title.len() - tail.len()) =~= tail);
        } else {
            assert(title.skip(title.len() - labels[1].len()) =~= labels[1]);
        }
    } else {
        text::parts_stand_in_the_whole(labels, "，"@, k);
        let whole = text::joined(labels, "，"@);
        let i = choose|i: int| text::stands_at(whole, labels[k], i);
        assert(title.subrange(i, i + labels[k].len()) =~= whole.subrange(
            i,
            i + labels[k].len(),
        ));
        assert(text::stands_at(title, labels[k], i));
    }
}

/// What a call did goes by its tool: the file tool reads or edits by its
/// operation, searches search, shells run commands, and what has no kind of its
/// own is a tool.
pub proof fn calls_count_for_what_they_did(name: Seq<char>, op: Option<Seq<char>>)
    ensures
        activity_of(name, op) == ProcessActivity::Edit <==> name == "fs"@ && op == Some("write"@),
        activity_of(name, op) == ProcessActivity::Read <==> name == "fs"@ && (op == Some("read"@)
            || op == Some("list"@)),
        activity_of(name, op) == ProcessActivity::Search <==> name == "grep"@ || name == "glob"@,
        activity_of(name, op) == ProcessActivity::Commands <==> name == "shell"@ || name == "bash"@
            || name == "pwsh"@,
        activity_of(name, op) == ProcessActivity::WebSearch <==> name == "web_search"@,
        activity_of(name, op) == ProcessActivity::WebFetch <==> name == "web_fetch"@,
        activity_of(name, op) == ProcessActivity::Subagents <==> name == "subagent"@,
        activity_of(name, op) == ProcessActivity::Plan <==> name == "todo_write"@,
{
    reveal_strlit("fs");
    reveal_strlit("grep");
    reveal_strlit("glob");
    reveal_strlit("shell");
    reveal_strlit("bash");
    reveal_strlit("pwsh");
    reveal_strlit("web_search");
    reveal_strlit("web_fetch");
    reveal_strlit("subagent");
    reveal_strlit("todo_write");
    reveal_strlit("read");
    reveal_strlit("list");
    reveal_strlit("write");
    assert("fs"@.len() == 2 && "grep"@.len() == 4 && "glob"@.len() == 4 && "shell"@.len() == 5);
    assert("bash"@.len() == 4 && "pwsh"@.len() == 4 && "web_search"@.len() == 10);
    assert("web_fetch"@.len() == 9 && "subagent"@.len() == 8 && "todo_write"@.len() == 10);
    assert("grep"@[1] == 'r' && "glob"@[1] == 'l' && "bash"@[0] == 'b' && "pwsh"@[0] == 'p');
    assert("grep"@[0] == 'g' && "glob"@[0] == 'g' && "web_search"@[0] == 'w');
    assert("todo_write"@[0] == 't');
    assert("read"@.len() == 4 && "list"@.len() == 4 && "write"@.len() == 5);
    assert("read"@[0] == 'r' && "list"@[0] == 'l');
}

/// The first call with an id counts, as what it did.
pub proof fn first_call_counts(
    calls: Seq<(Seq<char>, ProcessActivity)>,
    next: (Seq<char>, ProcessActivity),
)
    requires
        forall|i: int| 0 <= i < calls.len() ==> (#[trigger] calls[i]).0 != next.0,
    ensures
        distinct_kinds(calls.push(next)) == distinct_kinds(calls).push(next.1),
        distinct_kinds(Seq::empty()) == Seq::<ProcessActivity>::empty(),
{
    assert(calls.push(next).drop_last() =~= calls);
}

/// Kinds are counted one by one, and stand where they came first.
pub proof fn kinds_are_counted(kinds: Seq<ProcessActivity>, k: ProcessActivity)
    ensures
        occurrences(kinds, k) == kinds.filter(|x: ProcessActivity| x == k).len(),
        kinds.contains(k) ==> 0 <= first_place(kinds, k) < kinds.len() && kinds[first_place(
            kinds,
            k,
        )] == k && forall|j: int| 0 <= j < first_place(kinds, k) ==> #[trigger] kinds[j] != k,
    decreases kinds.len(),
{
    reveal(Seq::filter);
    if kinds.len() > 0 {
        let head = kinds.drop_last();
        kinds_are_counted(head, k);
        if kinds.contains(k) {
            if head.contains(k) {
                let p = first_place(head, k);
                assert(kinds[p] == head[p]);
                assert forall|j: int| 0 <= j < p implies #[trigger] kinds[j] != k by {
                    assert(head[j] == kinds[j]);
                }
            } else {
                assert forall|j: int| 0 <= j < kinds.len() - 1 implies #[trigger] kinds[j] != k by {
                    assert(head[j] == kinds[j]);
                }
            }
        }
    }
}

} // verus!
