//! The cards of tool calls: which one shows a call, and what is put into it.

use crate::chat::{ChatEntry, EntryView, MsgBlock, ToolView};
use crate::fold;
use crate::json::{Json, JsonView};
use crate::json;
use crate::text;
use crate::traj::ToolBlock;
use vstd::prelude::*;

verus! {

/// The card that shows a call.
#[derive(Clone, Debug)]
pub enum Card {
    /// A command and what it printed.
    Terminal { command: String },
    /// A file that was read.
    Read { path: String },
    /// A file that was written.
    Diff { path: String, content: String },
    /// The matches of a search; the input stands in where they do not read.
    Matches { input: String },
    /// The paths that were found; the input stands in where they do not read.
    Paths { input: String },
    /// A page that was fetched, and whether it was cut.
    Fetch { url: String, cut: bool },
    /// Input and output as they are.
    Plain { input: String },
}

/// The contents of a card.
pub enum CardView {
    Terminal { command: Seq<char> },
    Read { path: Seq<char> },
    Diff { path: Seq<char>, content: Seq<char> },
    Matches { input: Seq<char> },
    Paths { input: Seq<char> },
    Fetch { url: Seq<char>, cut: bool },
    Plain { input: Seq<char> },
}

impl DeepView for Card {
    type V = CardView;

    open spec fn deep_view(&self) -> CardView {
        match self {
            Card::Terminal { command } => CardView::Terminal { command: command@ },
            Card::Read { path } => CardView::Read { path: path@ },
            Card::Diff { path, content } => CardView::Diff { path: path@, content: content@ },
            Card::Matches { input } => CardView::Matches { input: input@ },
            Card::Paths { input } => CardView::Paths { input: input@ },
            Card::Fetch { url, cut } => CardView::Fetch { url: url@, cut: *cut },
            Card::Plain { input } => CardView::Plain { input: input@ },
        }
    }
}

/// From this length on a fetched page was cut.
pub const FETCH_LIMIT: usize = 8000;

/// The arguments of a call as they are shown: indented where they read as
/// JSON.
pub open spec fn shown_input(arguments: Seq<char>) -> Seq<char> {
    match json::parsed_json(arguments) {
        Some(v) => match json::pretty_json(v) {
            Some(s) => s,
            None => arguments,
        },
        None => arguments,
    }
}

/// The text of an argument, or nothing.
pub open spec fn argument(arguments: Option<JsonView>, key: Seq<char>) -> Seq<char> {
    json::text_or_empty(json::member_of(arguments, key))
}

/// The card of a call, from its arguments as they were read and as they are
/// shown. A call that failed or still runs has the plain one, but for a
/// command.
pub open spec fn card_of(t: ToolView, arguments: Option<JsonView>, input: Seq<char>) -> CardView {
    let done = !t.error && t.result is Some;
    if t.name == "shell"@ {
        CardView::Terminal { command: argument(arguments, "command"@) }
    } else if t.name == "fs"@ && done && argument(arguments, "op"@) == "read"@ {
        CardView::Read { path: argument(arguments, "path"@) }
    } else if t.name == "fs"@ && done && argument(arguments, "op"@) == "write"@ {
        CardView::Diff {
            path: argument(arguments, "path"@),
            content: argument(arguments, "content"@),
        }
    } else if t.name == "grep"@ && done {
        CardView::Matches { input }
    } else if t.name == "glob"@ && done {
        CardView::Paths { input }
    } else if t.name == "web_fetch"@ && done {
        CardView::Fetch { url: argument(arguments, "url"@), cut: t.result->0.len() >= FETCH_LIMIT }
    } else {
        CardView::Plain { input }
    }
}

fn argument_text(arguments: &Option<Json>, key: &str) -> (r: String)
    ensures
        r@ == argument(arguments.deep_view(), key@),
{
    match arguments {
        Some(v) => json::text_or_default(v.get(key)),
        None => String::new(),
    }
}

/// The card of a call, from its arguments as they were read and as they are
/// shown.
pub fn card_for(t: &ToolBlock, arguments: &Option<Json>, input: String) -> (r: Card)
    ensures
        r.deep_view() == card_of(t.deep_view(), arguments.deep_view(), input@),
{
    let done = !t.error && t.result.is_some();
    let name: &str = t.name.as_str();
    if text::same(name, "shell") {
        return Card::Terminal { command: argument_text(arguments, "command") };
    }
    if !done {
        return Card::Plain { input };
    }
    if text::same(name, "fs") {
        let op = argument_text(arguments, "op");
        if text::same(op.as_str(), "read") {
            return Card::Read { path: argument_text(arguments, "path") };
        }
        if text::same(op.as_str(), "write") {
            return Card::Diff {
                path: argument_text(arguments, "path"),
                content: argument_text(arguments, "content"),
            };
        }
    }
    if text::same(name, "grep") {
        return Card::Matches { input };
    }
    if text::same(name, "glob") {
        return Card::Paths { input };
    }
    if text::same(name, "web_fetch") {
        let cut = match &t.result {
            Some(s) => text::char_count(s.as_str()) >= FETCH_LIMIT,
            None => false,
        };
        return Card::Fetch { url: argument_text(arguments, "url"), cut };
    }
    Card::Plain { input }
}

/// The card of a call.
pub fn tool_card(t: &ToolBlock) -> (r: Card)
    ensures
        r.deep_view() == card_of(
            t.deep_view(),
            json::parsed_json(t.arguments@),
            shown_input(t.arguments@),
        ),
{
    let arguments = json::parse_json(t.arguments.as_str());
    let input = match &arguments {
        Some(v) => match json::render_json(v) {
            Some(s) => s,
            None => t.arguments.clone(),
        },
        None => t.arguments.clone(),
    };
    card_for(t, &arguments, input)
}

/// How many calls stand before a part.
pub open spec fn calls_ahead(entries: Seq<EntryView>, ei: int, bi: int) -> nat {
    calls_in_all(entries, ei) + fold::calls_in(entries[ei].blocks.take(bi)).len()
}

/// How many calls stand in the first `n` entries.
pub open spec fn calls_in_all(entries: Seq<EntryView>, n: int) -> nat
    decreases n,
{
    if n <= 0 {
        0
    } else {
        calls_in_all(entries, n - 1) + fold::calls_in(entries[n - 1].blocks).len()
    }
}

/// How many calls stand before a part: the place of a call among all calls.
pub fn call_ordinal(entries: &Vec<ChatEntry>, ei: usize, bi: usize) -> (r: usize)
    requires
        ei < entries@.len(),
        bi <= entries@[ei as int].blocks@.len(),
        calls_in_all(entries.deep_view(), entries@.len() as int) <= usize::MAX,
    ensures
        r == calls_ahead(entries.deep_view(), ei as int, bi as int),
{
    let ghost view = entries.deep_view();
    assert(view.len() == entries@.len());
    let mut n: usize = 0;
    let mut i: usize = 0;
    while i < ei
        invariant
            i <= ei < entries@.len(),
            view == entries.deep_view(),
            view.len() == entries@.len(),
            calls_in_all(view, view.len() as int) <= usize::MAX,
            n == calls_in_all(view, i as int),
        decreases ei - i,
    {
        assert(view[i as int] == entries@[i as int].deep_view());
        proof {
            lemma_calls_in_all(view, i + 1, view.len() as int);
        }
        n = n + fold::count_calls(&entries[i].blocks);
        i += 1;
    }
    let ghost blocks = view[ei as int].blocks;
    let ghost ahead = n;
    assert(view[ei as int] == entries@[ei as int].deep_view());
    proof {
        lemma_calls_in_all(view, ei + 1, view.len() as int);
        assert(calls_in_all(view, ei + 1) == n + fold::calls_in(blocks).len());
    }
    let mut j: usize = 0;
    while j < bi
        invariant
            j <= bi <= entries@[ei as int].blocks@.len(),
            ei < entries@.len(),
            blocks == entries@[ei as int].blocks.deep_view(),
            ahead + fold::calls_in(blocks).len() <= usize::MAX,
            n == ahead + fold::calls_in(blocks.take(j as int)).len(),
        decreases bi - j,
    {
        assert(blocks.take(j + 1).drop_last() =~= blocks.take(j as int));
        assert(blocks.take(j + 1).last() == entries@[ei as int].blocks@[j as int].deep_view());
        proof {
            fold::lemma_calls_taken(blocks, j + 1);
        }
        if let MsgBlock::Tool(_) = &entries[ei].blocks[j] {
            n += 1;
        }
        j += 1;
    }
    n
}

proof fn lemma_calls_in_all(entries: Seq<EntryView>, i: int, n: int)
    requires
        0 <= i <= n,
    ensures
        calls_in_all(entries, i) <= calls_in_all(entries, n),
    decreases n,
{
    if i < n {
        lemma_calls_in_all(entries, i, n - 1);
    }
}

// ---------------------------------------------------------------------------
// laws
// ---------------------------------------------------------------------------

/// The card of a finished call of the file tool agrees with what the tool was
/// asked to do: a write shows the path and the content that are written, a read
/// the path that is read.
pub proof fn card_agrees_with_the_request(t: ToolView, request: JsonView, input: Seq<char>)
    requires
        t.name == "fs"@,
        !t.error,
        t.result is Some,
    ensures
        ({
            let op = json::text_or_empty(request.member("op"@));
            let path = json::text_or_empty(request.member("path"@));
            let content = json::text_or_empty(request.member("content"@));
            let r = card_of(t, Some(request), input);
            &&& op == "write"@ <==> r is Diff
            &&& op == "read"@ <==> r is Read
            &&& op == "write"@ ==> r->Diff_path == path && r->Diff_content == content
            &&& op == "read"@ ==> r->Read_path == path
            &&& op != "write"@ && op != "read"@ ==> r == CardView::Plain { input }
        }),
{
    lemma_names();
}

proof fn lemma_names()
    ensures
        "fs"@ != "shell"@,
        "fs"@ != "grep"@,
        "fs"@ != "glob"@,
        "fs"@ != "web_fetch"@,
        "shell"@ != "grep"@,
        "shell"@ != "glob"@,
        "shell"@ != "web_fetch"@,
        "grep"@ != "glob"@,
        "grep"@ != "web_fetch"@,
        "glob"@ != "web_fetch"@,
        "read"@ != "write"@,
{
    reveal_strlit("fs");
    reveal_strlit("shell");
    reveal_strlit("grep");
    reveal_strlit("glob");
    reveal_strlit("web_fetch");
    reveal_strlit("read");
    reveal_strlit("write");
    assert("fs"@[0] == 'f' && "shell"@[0] == 's' && "web_fetch"@[0] == 'w');
    assert("grep"@[1] == 'r' && "glob"@[1] == 'l' && "grep"@[0] == 'g' && "glob"@[0] == 'g');
    assert("read"@[0] == 'r' && "write"@[0] == 'w');
}

/// Only a command is shown as one before it is done, and a call that failed is
/// shown as it is: its input and its output.
pub proof fn unfinished_call_is_shown_as_it_is(
    t: ToolView,
    request: JsonView,
    arguments: Option<JsonView>,
    input: Seq<char>,
)
    ensures
        t.name != "shell"@ && (t.error || t.result is None) ==> card_of(t, arguments, input)
            == (CardView::Plain { input }),
        t.name == "shell"@ <==> card_of(t, arguments, input) is Terminal,
        t.name == "shell"@ ==> card_of(t, Some(request), input) == (CardView::Terminal {
            command: json::text_or_empty(request.member("command"@)),
        }),
{
    lemma_names();
}

/// A finished search or fetch has its own card; a fetched page was cut exactly
/// where its text reached the limit.
pub proof fn finished_call_has_its_card(t: ToolView, request: JsonView, input: Seq<char>)
    requires
        !t.error,
        t.result is Some,
    ensures
        ({
            let r = card_of(t, Some(request), input);
            &&& t.name == "grep"@ <==> r is Matches
            &&& t.name == "glob"@ <==> r is Paths
            &&& t.name == "web_fetch"@ <==> r is Fetch
            &&& t.name == "grep"@ ==> r->Matches_input == input
            &&& t.name == "glob"@ ==> r->Paths_input == input
            &&& t.name == "web_fetch"@ ==> r->Fetch_url == json::text_or_empty(
                request.member("url"@),
            ) && (r->Fetch_cut <==> t.result->0.len() >= 8000)
        }),
{
    lemma_names();
}

/// The place of a call is the number of calls before it: the calls of an entry
/// follow those of the entries before it.
pub proof fn calls_are_numbered_through(entries: Seq<EntryView>, ei: int, bi: int)
    requires
        0 <= ei < entries.len(),
        0 <= bi < entries[ei].blocks.len(),
    ensures
        calls_ahead(entries, ei, bi + 1) == calls_ahead(entries, ei, bi) + (
        if entries[ei].blocks[bi] is Tool {
            1nat
        } else {
            0nat
        }),
        calls_ahead(entries, 0, 0) == 0,
        ei + 1 < entries.len() ==> calls_ahead(entries, ei + 1, 0) == calls_ahead(
            entries,
            ei,
            entries[ei].blocks.len() as int,
        ),
{
    let blocks = entries[ei].blocks;
    assert(blocks.take(bi + 1).drop_last() =~= blocks.take(bi));
    assert(blocks.take(blocks.len() as int) =~= blocks);
    assert(entries[0].blocks.take(0) =~= Seq::empty());
    if ei + 1 < entries.len() {
        assert(entries[ei + 1].blocks.take(0) =~= Seq::empty());
    }
}

} // verus!
