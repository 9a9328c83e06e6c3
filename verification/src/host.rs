//! What the program does around a session: which one it starts with, what it
//! tells the model of the shell, where the agent's events go, and what answers
//! while no model is set up.

use crate::agent::AgentEvent;
use crate::fs::FsMode;
use crate::session::{self, Message, MessageSource};
use crate::settings::AppearanceMode;
use crate::text;
use crate::view_split::ViewSplit;
use vstd::prelude::*;

verus! {

// ---------------------------------------------------------------------------
// the shell
// ---------------------------------------------------------------------------

/// What is said of a shell that is bash, or else of the command prompt.
pub open spec fn shell_kind_note(bash: bool) -> Seq<char> {
    if bash {
        "The shell tool runs each command through bash with its working directory already set to the workspace root: do not `cd` first. Bash syntax (pipes, `;`, `$()`, quotes, POSIX paths) works naturally."@
    } else {
        "The shell tool runs each command through `cmd /C` (NOT bash) with its working directory already set to the workspace root: do not `cd` first, and use Windows-style paths (`E:\\dir\\file.rs`), not POSIX-style (`/e/...`). cmd does NOT understand bash syntax: use `&&` instead of `;`, avoid `$()`, avoid `%` in format strings, and remember quotes around arguments with spaces get stripped."@
    }
}

/// What is said of commands that take long.
pub open spec fn long_command_note() -> Seq<char> {
    " For a long-running command (build, test suite, install), redirect the full output to a temporary file (e.g. `cargo test --workspace > out.txt 2>&1`) and then grep or read that file for each different view — never re-run the command just to see another slice of its output. Prefer the grep and glob tools over shell grep/find, and the fs tool over shell dir/ls."@
}

/// What is said of what may be written.
pub open spec fn permission_note(mode: FsMode) -> Seq<char> {
    match mode {
        FsMode::ReadOnly => "\nPermission: the session is READ-ONLY. The fs tool denies every write. Do not attempt to modify, create, delete, or move files; use read/list/exists only, and do not run shell commands that change anything on disk."@,
        FsMode::WorkspaceWrite => "\nPermission: workspace-write. Writes are confined to the workspace root (the fs tool denies anything outside); keep every file change inside it."@,
        FsMode::DangerFullAccess => "\nPermission: full access — file operations are unrestricted."@,
    }
}

/// What the model is told of the shell: the root where there is one, how the
/// shell takes a command, what to do with long ones, and what may be written.
pub fn shell_section_text(root: &str, mode: FsMode, bash: bool) -> (r: String)
    ensures
        r@ == (if root@.len() == 0 {
            Seq::empty()
        } else {
            "Workspace root: "@ + root@ + "\n"@
        }) + shell_kind_note(bash) + long_command_note() + permission_note(mode),
{
    let mut r: String = if text::char_count(root) == 0 {
        String::new()
    } else {
        text::concat3("Workspace root: ", root, "\n")
    };
    if bash {
        text::push_text(
            &mut r,
            "The shell tool runs each command through bash with its working directory already set to the workspace root: do not `cd` first. Bash syntax (pipes, `;`, `$()`, quotes, POSIX paths) works naturally.",
        );
    } else {
        text::push_text(
            &mut r,
            "The shell tool runs each command through `cmd /C` (NOT bash) with its working directory already set to the workspace root: do not `cd` first, and use Windows-style paths (`E:\\dir\\file.rs`), not POSIX-style (`/e/...`). cmd does NOT understand bash syntax: use `&&` instead of `;`, avoid `$()`, avoid `%` in format strings, and remember quotes around arguments with spaces get stripped.",
        );
    }
    text::push_text(
        &mut r,
        " For a long-running command (build, test suite, install), redirect the full output to a temporary file (e.g. `cargo test --workspace > out.txt 2>&1`) and then grep or read that file for each different view — never re-run the command just to see another slice of its output. Prefer the grep and glob tools over shell grep/find, and the fs tool over shell dir/ls.",
    );
    match mode {
        FsMode::ReadOnly => text::push_text(
            &mut r,
            "\nPermission: the session is READ-ONLY. The fs tool denies every write. Do not attempt to modify, create, delete, or move files; use read/list/exists only, and do not run shell commands that change anything on disk.",
        ),
        FsMode::WorkspaceWrite => text::push_text(
            &mut r,
            "\nPermission: workspace-write. Writes are confined to the workspace root (the fs tool denies anything outside); keep every file change inside it.",
        ),
        FsMode::DangerFullAccess => text::push_text(
            &mut r,
            "\nPermission: full access — file operations are unrestricted.",
        ),
    }
    r
}

// ---------------------------------------------------------------------------
// events of the agent
// ---------------------------------------------------------------------------

/// What an event of the agent leads to.
#[derive(Clone, Copy, Debug, PartialEq, Eq, Structural)]
pub struct HostStep {
    /// Whether the list of sessions is drawn again.
    pub refresh: bool,
    /// Whether the event reaches the transcript.
    pub to_view: bool,
    /// Whether the agent moves to the session that is shown.
    pub commit: bool,
}

/// Whether an event starts or ends a turn.
pub open spec fn is_boundary(e: AgentEvent) -> bool {
    e is TurnStarted || e is TurnEnded || e is Error
}

/// Takes an event of the agent: a turn that starts or ends changes whether the
/// agent is busy, an event of a session that is not shown stays out of the
/// transcript, and at the end of a turn the agent follows the view.
pub fn on_agent_event(split: &mut ViewSplit, e: &AgentEvent) -> (r: HostStep)
    ensures
        final(split).peeking == old(split).peeking,
        final(split).agent_busy == (if is_boundary(*e) {
            e is TurnStarted
        } else {
            old(split).agent_busy
        }),
        r == (HostStep {
            refresh: is_boundary(*e),
            to_view: !old(split).peeking,
            commit: is_boundary(*e) && !final(split).settled(),
        }),
{
    let boundary: bool = match e {
        AgentEvent::TurnStarted { .. } => {
            split.agent_busy = true;
            true
        },
        AgentEvent::TurnEnded { .. } => {
            split.agent_busy = false;
            true
        },
        AgentEvent::Error { .. } => {
            split.agent_busy = false;
            true
        },
        _ => false,
    };
    HostStep {
        refresh: boundary,
        to_view: split.routes_to_view(),
        commit: boundary && split.needs_commit(),
    }
}

/// The state once the agent has moved where a step says so.
pub open spec fn after_step(split: ViewSplit, r: HostStep) -> ViewSplit {
    if r.commit {
        ViewSplit { peeking: false, ..split }
    } else {
        split
    }
}

/// Once the agent has moved where it has to, an idle agent stands in the
/// session that is shown, whatever event came.
pub proof fn events_keep_the_view_settled(before: ViewSplit, after: ViewSplit, e: AgentEvent)
    requires
        before.settled(),
        after.peeking == before.peeking,
        after.agent_busy == (if is_boundary(e) {
            e is TurnStarted
        } else {
            before.agent_busy
        }),
    ensures
        after_step(
            after,
            HostStep {
                refresh: is_boundary(e),
                to_view: !before.peeking,
                commit: is_boundary(e) && !after.settled(),
            },
        ).settled(),
{
}

/// How another session is brought up.
#[derive(Clone, Copy, Debug, PartialEq, Eq, Structural)]
pub enum SessionSwitch {
    /// The agent and the view move to it.
    Move,
    /// The view goes back to the session that runs, and follows it again.
    Resume,
    /// The view alone moves; the agent goes on where it is.
    Peek,
}

/// Brings up the session `id` while the agent is in `current`. A busy agent
/// stays where it is.
pub fn switch_session(split: &mut ViewSplit, current: &str, id: &str) -> (r: SessionSwitch)
    ensures
        r == (if !old(split).agent_busy {
            SessionSwitch::Move
        } else if id@ == current@ {
            SessionSwitch::Resume
        } else {
            SessionSwitch::Peek
        }),
        *final(split) == (ViewSplit { peeking: r is Peek, ..*old(split) }),
        final(split).settled(),
{
    if !split.agent_busy {
        split.settle();
        SessionSwitch::Move
    } else if text::same(id, current) {
        split.settle();
        SessionSwitch::Resume
    } else {
        split.peek();
        SessionSwitch::Peek
    }
}

// ---------------------------------------------------------------------------
// starting
// ---------------------------------------------------------------------------

/// What the program starts with.
#[derive(Clone, Copy, Debug, PartialEq, Eq, Structural)]
pub enum Startup {
    /// A stored session, by its place in the list.
    Resume(usize),
    /// A new session in the first workspace.
    FirstWorkspace,
    /// A session that is not stored yet.
    Draft,
}

/// The first session from `from` on that is not archived.
pub open spec fn first_shown(
    ids: Seq<Seq<char>>,
    archived: Seq<Seq<char>>,
    from: int,
) -> Option<int>
    decreases ids.len() - from,
{
    if from < 0 || from >= ids.len() {
        None
    } else if !archived.contains(ids[from]) {
        Some(from)
    } else {
        first_shown(ids, archived, from + 1)
    }
}

fn lists(ids: &Vec<String>, id: &str) -> (r: bool)
    ensures
        r == ids.deep_view().contains(id@),
{
    let ghost view = ids.deep_view();
    let mut i: usize = 0;
    while i < ids.len()
        invariant
            i <= ids@.len(),
            view == ids.deep_view(),
            view.len() == ids@.len(),
            forall|k: int| 0 <= k < i ==> #[trigger] view[k] != id@,
        decreases ids@.len() - i,
    {
        assert(view[i as int] == ids@[i as int]@);
        if text::same(ids[i].as_str(), id) {
            return true;
        }
        i = i + 1;
    }
    false
}

/// What the program starts with: the latest session that is not archived, else
/// a new one in the first workspace, else one that is not stored. The sessions
/// come latest first.
pub fn startup_choice(ids: &Vec<String>, archived: &Vec<String>, workspaces: usize) -> (r: Startup)
    ensures
        match first_shown(ids.deep_view(), archived.deep_view(), 0) {
            Some(i) => r == Startup::Resume(i as usize) && 0 <= i < ids@.len(),
            None => r == (if workspaces > 0 {
                Startup::FirstWorkspace
            } else {
                Startup::Draft
            }),
        },
{
    let ghost view = ids.deep_view();
    let ghost old_ones = archived.deep_view();
    let mut i: usize = 0;
    while i < ids.len()
        invariant
            i <= ids@.len(),
            view == ids.deep_view(),
            view.len() == ids@.len(),
            old_ones == archived.deep_view(),
            first_shown(view, old_ones, 0) == first_shown(view, old_ones, i as int),
        decreases ids@.len() - i,
    {
        assert(view[i as int] == ids@[i as int]@);
        if !lists(archived, ids[i].as_str()) {
            return Startup::Resume(i);
        }
        i = i + 1;
    }
    if workspaces > 0 {
        Startup::FirstWorkspace
    } else {
        Startup::Draft
    }
}

/// The title that a stored session is listed with: the one in its log that is
/// more than blanks, else the one noted beside the logs, else a word for a new
/// one.
pub fn listed_title(logged: Option<String>, noted: Option<String>) -> (r: String)
    ensures
        r@ == (match (logged.deep_view(), noted.deep_view()) {
            (Some(s), n) => if text::trimmed(s).len() > 0 {
                s
            } else {
                match n {
                    Some(n) => n,
                    None => "新会话"@,
                }
            },
            (None, Some(n)) => n,
            (None, None) => "新会话"@,
        }),
{
    match logged {
        Some(s) => {
            if !text::is_blank(s.as_str()) {
                return s;
            }
        },
        None => {},
    }
    match noted {
        Some(n) => n,
        None => "新会话".to_owned(),
    }
}

/// Whether the window is dark: as the settings say, or as the system is.
pub fn is_dark(appearance: AppearanceMode, system_dark: bool) -> (r: bool)
    ensures
        r == (match appearance {
            AppearanceMode::Light => false,
            AppearanceMode::Dark => true,
            AppearanceMode::System => system_dark,
        }),
{
    match appearance {
        AppearanceMode::Light => false,
        AppearanceMode::Dark => true,
        AppearanceMode::System => system_dark,
    }
}

// ---------------------------------------------------------------------------
// exporting a log
// ---------------------------------------------------------------------------

/// Whether a file of a session's folder is part of its log.
pub fn is_log(name: Option<&str>, extension: Option<&str>) -> (r: bool)
    ensures
        r == (match (name, extension) {
            (Some(n), Some(x)) => text::begins(n@, "session"@) && x@ == "zstd"@,
            _ => false,
        }),
{
    match (name, extension) {
        (Some(n), Some(x)) => text::starts_with(n, "session") && text::same(x, "zstd"),
        _ => false,
    }
}

/// What a part of a log is called once it is exported.
pub fn export_name(session: &str, name: &str) -> (r: String)
    ensures
        r@ == session@ + "-"@ + name@,
{
    text::concat3(session, "-", name)
}

/// What is said when an export is over: how many parts were written and which
/// was the first, or where none was found and what went wrong first. `failed`
/// is the name of the first part that could not be written.
pub fn export_message(folder: &str, done: &Vec<(String, u64)>, failed: Option<&str>) -> (r: String)
    ensures
        r@ == (if done@.len() > 0 {
            "已导出 "@ + text::dec(done@.len()) + " 个会话日志（"@ + done@[0].0@ + "，"@ + text::dec(
                done@[0].1 as nat,
            ) + " 字节）"@
        } else {
            "未找到可导出的会话日志（源 "@ + folder@ + (match failed {
                Some(n) => "，"@ + n@ + ": 写出失败"@,
                None => Seq::empty(),
            }) + "）"@
        }),
{
    let mut r: String = String::new();
    if done.len() > 0 {
        let count: String = text::decimal(done.len() as u64);
        let size: String = text::decimal(done[0].1);
        text::push_text(&mut r, "已导出 ");
        text::push_text(&mut r, count.as_str());
        text::push_text(&mut r, " 个会话日志（");
        text::push_text(&mut r, done[0].0.as_str());
        text::push_text(&mut r, "，");
        text::push_text(&mut r, size.as_str());
        text::push_text(&mut r, " 字节）");
    } else {
        let why: String = match failed {
            Some(n) => text::concat3("，", n, ": 写出失败"),
            None => String::new(),
        };
        text::push_text(&mut r, "未找到可导出的会话日志（源 ");
        text::push_text(&mut r, folder);
        text::push_text(&mut r, why.as_str());
        text::push_text(&mut r, "）");
    }
    r
}

// ---------------------------------------------------------------------------
// answers without a model
// ---------------------------------------------------------------------------

/// The latest message of the user, by its place.
pub open spec fn latest_from_user(messages: Seq<Message>) -> Option<int>
    decreases messages.len(),
{
    if messages.len() == 0 {
        None
    } else if messages.last().source is User {
        Some(messages.len() - 1)
    } else {
        latest_from_user(messages.drop_last())
    }
}

/// What the user said last.
pub open spec fn last_said(messages: Seq<Message>) -> Seq<char> {
    match latest_from_user(messages) {
        Some(i) => text::joined(session::spoken_texts(messages[i].content@), ""@),
        None => Seq::empty(),
    }
}

/// What the user said last.
pub fn last_user_text(messages: &Vec<Message>) -> (r: String)
    ensures
        r@ == last_said(messages@),
{
    let mut i: usize = messages.len();
    assert(messages@.take(i as int) =~= messages@);
    while i > 0
        invariant
            i <= messages@.len(),
            latest_from_user(messages@) == latest_from_user(messages@.take(i as int)),
        decreases i,
    {
        let ghost now = messages@.take(i as int);
        assert(now.last() == messages@[i - 1]);
        assert(now.drop_last() =~= messages@.take(i - 1));
        i = i - 1;
        match &messages[i].source {
            MessageSource::User => {
                return session::message_text(&messages[i]);
            },
            _ => {},
        }
    }
    assert(messages@.take(0) =~= Seq::<Message>::empty());
    String::new()
}

/// What is answered while no model is set up.
pub fn mock_reply(said: &str) -> (r: String)
    ensures
        r@ == "你刚才说的是：**"@ + said@
            + "**。\n\n## 这是 markdown 渲染演示\n\n- **加粗**文本\n- `行内代码`\n- 有序列表\n\n1. 第一项\n2. 第二项\n\n> 引用块（设置 DEEPSEEK_API_KEY 后可接入真实模型）。"@,
{
    text::concat3(
        "你刚才说的是：**",
        said,
        "**。\n\n## 这是 markdown 渲染演示\n\n- **加粗**文本\n- `行内代码`\n- 有序列表\n\n1. 第一项\n2. 第二项\n\n> 引用块（设置 DEEPSEEK_API_KEY 后可接入真实模型）。",
    )
}

/// A text cut behind each blank.
pub open spec fn cut_behind_blanks(s: Seq<char>) -> Seq<Seq<char>>
    decreases s.len(),
{
    if s.len() == 0 {
        Seq::empty()
    } else {
        let head = cut_behind_blanks(s.drop_last());
        if s.len() == 1 || s[s.len() - 2] == ' ' {
            head.push(seq![s.last()])
        } else {
            head.drop_last().push(head.last().push(s.last()))
        }
    }
}

/// A text cut behind each blank, as it is sent piece by piece.
pub fn reply_pieces(s: &str) -> (r: Vec<String>)
    ensures
        r.deep_view() == cut_behind_blanks(s@),
{
    let v: Vec<char> = text::chars_of(s);
    let n: usize = v.len();
    let mut r: Vec<String> = Vec::new();
    let mut from: usize = 0;
    let mut i: usize = 0;
    assert(s@.take(0) =~= Seq::<char>::empty());
    assert(r.deep_view() =~= Seq::<Seq<char>>::empty());
    while i < n
        invariant
            from <= i <= n == v@.len(),
            v@ == s@,
            from < i ==> v@[i - 1] != ' ',
            from == i ==> i == 0 || v@[i - 1] == ' ',
            cut_behind_blanks(s@.take(i as int)) == (if from == i {
                r.deep_view()
            } else {
                r.deep_view().push(s@.subrange(from as int, i as int))
            }),
        decreases n - i,
    {
        let ghost now = s@.take(i as int);
        let ghost next = s@.take(i + 1);
        assert(next.drop_last() =~= now);
        assert(next.last() == v@[i as int]);
        assert(i > 0 ==> next[next.len() - 2] == v@[i - 1]);
        assert(cut_behind_blanks(next) =~= r.deep_view().push(
            s@.subrange(from as int, i + 1),
        )) by {
            if from == i {
                assert(s@.subrange(from as int, i + 1) =~= seq![v@[i as int]]);
            } else {
                let piece = s@.subrange(from as int, i as int);
                assert(piece.push(v@[i as int]) =~= s@.subrange(from as int, i + 1));
                assert(r.deep_view().push(piece).drop_last() =~= r.deep_view());
            }
        }
        i = i + 1;
        if v[i - 1] == ' ' {
            let piece: String = text::text_between(v.as_slice(), from, i);
            let ghost before = r.deep_view();
            r.push(piece);
            assert(r.deep_view() =~= before.push(piece@));
            from = i;
        }
    }
    assert(s@.take(n as int) =~= s@);
    if from < n {
        let piece: String = text::text_between(v.as_slice(), from, n);
        let ghost before = r.deep_view();
        r.push(piece);
        assert(r.deep_view() =~= before.push(piece@));
    }
    r
}

/// The pieces make up the text.
pub proof fn pieces_make_up_the_reply(s: Seq<char>)
    ensures
        text::joined(cut_behind_blanks(s), Seq::empty()) == s,
        s.len() > 0 ==> cut_behind_blanks(s).len() > 0,
    decreases s.len(),
{
    let none = Seq::<char>::empty();
    if s.len() > 0 {
        let head = cut_behind_blanks(s.drop_last());
        let all = cut_behind_blanks(s);
        pieces_make_up_the_reply(s.drop_last());
        if s.len() == 1 {
            assert(head =~= Seq::<Seq<char>>::empty());
            assert(seq![s.last()] =~= s);
            assert(all =~= seq![s]);
        } else if s[s.len() - 2] == ' ' {
            assert(all.drop_last() =~= head);
            assert(text::joined(head, none) + none + seq![s.last()] =~= s);
        } else {
            let short = head.drop_last();
            assert(all.drop_last() =~= short);
            if head.len() == 1 {
                assert(text::joined(head, none) == head.last());
                assert(head.last().push(s.last()) =~= s);
                assert(all =~= seq![s]);
            } else {
                assert(text::joined(head, none) == text::joined(short, none) + none + head.last());
                assert(text::joined(short, none) + none + head.last().push(s.last()) =~= (
                text::joined(short, none) + none + head.last()).push(s.last()));
                assert(s.drop_last().push(s.last()) =~= s);
            }
        }
    }
}

/// The thought that is shown before such an answer.
pub fn mock_thought() -> (r: &'static str)
    ensures
        r@ == "让我梳理一下要点，再组织回答…"@,
{
    "让我梳理一下要点，再组织回答…"
}

// ---------------------------------------------------------------------------
// laws of starting, replying and the notes for the model
// ---------------------------------------------------------------------------

/// The session to start with is the first that is not archived.
pub proof fn first_open_session_is_taken(
    ids: Seq<Seq<char>>,
    archived: Seq<Seq<char>>,
    from: int,
)
    requires
        0 <= from,
    ensures
        match first_shown(ids, archived, from) {
            Some(i) => from <= i < ids.len() && !archived.contains(ids[i]) && forall|j: int|
                from <= j < i ==> archived.contains(#[trigger] ids[j]),
            None => forall|j: int| from <= j < ids.len() ==> archived.contains(#[trigger] ids[j]),
        },
    decreases ids.len() - from,
{
    if from < ids.len() && archived.contains(ids[from]) {
        first_open_session_is_taken(ids, archived, from + 1);
    }
}

/// What was said last is the words of the last message of the user, whatever
/// others wrote behind it.
pub proof fn last_words_are_the_users(messages: Seq<Message>, m: Message)
    ensures
        m.source is User ==> last_said(messages.push(m)) == text::joined(
            session::spoken_texts(m.content@),
            Seq::empty(),
        ),
        !(m.source is User) ==> last_said(messages.push(m)) == last_said(messages),
        last_said(Seq::empty()).len() == 0,
{
    reveal_strlit("");
    assert(""@ =~= Seq::<char>::empty());
    let after = messages.push(m);
    assert(after.drop_last() =~= messages);
    lemma_latest_place(messages);
}

proof fn lemma_latest_place(messages: Seq<Message>)
    ensures
        latest_from_user(messages) matches Some(i) ==> 0 <= i < messages.len(),
    decreases messages.len(),
{
    if messages.len() > 0 {
        lemma_latest_place(messages.drop_last());
    }
}

/// A reply is cut behind its blanks: every piece but the last ends in one, and
/// no piece holds one before its end.
pub proof fn pieces_end_in_blanks(s: Seq<char>, k: int, i: int)
    requires
        0 <= k < cut_behind_blanks(s).len(),
    ensures
        cut_behind_blanks(s)[k].len() > 0,
        k < cut_behind_blanks(s).len() - 1 ==> cut_behind_blanks(s)[k].last() == ' ',
        0 <= i < cut_behind_blanks(s)[k].len() - 1 ==> cut_behind_blanks(s)[k][i] != ' ',
        cut_behind_blanks(s).last().len() > 0,
        cut_behind_blanks(s).last().last() == s.last(),
    decreases s.len(),
{
    let all = cut_behind_blanks(s);
    if s.len() > 1 {
        let head = cut_behind_blanks(s.drop_last());
        pieces_make_up_the_reply(s.drop_last());
        let n = head.len() - 1;
        if k < n {
            pieces_end_in_blanks(s.drop_last(), k, i);
            assert(all[k] == head[k]);
        } else {
            pieces_end_in_blanks(s.drop_last(), n, i);
            assert(s.drop_last().last() == s[s.len() - 2]);
        }
    } else {
        assert(cut_behind_blanks(s.drop_last()).len() == 0);
    }
}

/// The note on the shell tells of the shell that there is.
pub proof fn shell_note_names_the_shell()
    ensures
        text::begins(shell_kind_note(true), "The shell tool runs each command through bash"@),
        text::begins(shell_kind_note(false), "The shell tool runs each command through `cmd /C`"@),
{
    reveal_strlit("The shell tool runs each command through bash");
    reveal_strlit("The shell tool runs each command through `cmd /C`");
    reveal_strlit("The shell tool runs each command through bash with its working directory already set to the workspace root: do not `cd` first. Bash syntax (pipes, `;`, `$()`, quotes, POSIX paths) works naturally.");
    reveal_strlit("The shell tool runs each command through `cmd /C` (NOT bash) with its working directory already set to the workspace root: do not `cd` first, and use Windows-style paths (`E:\\dir\\file.rs`), not POSIX-style (`/e/...`). cmd does NOT understand bash syntax: use `&&` instead of `;`, avoid `$()`, avoid `%` in format strings, and remember quotes around arguments with spaces get stripped.");
    let a = shell_kind_note(true);
    let b = shell_kind_note(false);
    assert(a.take(45) =~= "The shell tool runs each command through bash"@);
    assert(b.take(49) =~= "The shell tool runs each command through `cmd /C`"@);
}

/// The note on permissions tells of the mode that there is.
pub proof fn permission_note_names_the_mode()
    ensures
        text::begins(
            permission_note(FsMode::ReadOnly),
            "\nPermission: the session is READ-ONLY."@,
        ),
        text::begins(
            permission_note(FsMode::WorkspaceWrite),
            "\nPermission: workspace-write."@,
        ),
        text::begins(
            permission_note(FsMode::DangerFullAccess),
            "\nPermission: full access"@,
        ),
{
    reveal_strlit("\nPermission: the session is READ-ONLY.");
    reveal_strlit("\nPermission: workspace-write.");
    reveal_strlit("\nPermission: full access");
    reveal_strlit("\nPermission: the session is READ-ONLY. The fs tool denies every write. Do not attempt to modify, create, delete, or move files; use read/list/exists only, and do not run shell commands that change anything on disk.");
    reveal_strlit("\nPermission: workspace-write. Writes are confined to the workspace root (the fs tool denies anything outside); keep every file change inside it.");
    reveal_strlit("\nPermission: full access — file operations are unrestricted.");
    let a = permission_note(FsMode::ReadOnly);
    let b = permission_note(FsMode::WorkspaceWrite);
    let c = permission_note(FsMode::DangerFullAccess);
    assert(a.take(38) =~= "\nPermission: the session is READ-ONLY."@);
    assert(b.take(29) =~= "\nPermission: workspace-write."@);
    assert(c.take(24) =~= "\nPermission: full access"@);
}

} // verus!
