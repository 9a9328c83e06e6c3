//! The menus around what is typed, the question before full access is given,
//! and the panel of details.

use crate::roster::{self, MetaView, SessionMeta};
use crate::settings::{CustomProvider, ProviderView};
use crate::text;
use crate::workspace::WorkspaceInfo;
use vstd::prelude::*;

verus! {

// ---------------------------------------------------------------------------
// commands
// ---------------------------------------------------------------------------

/// A command of the menu.
#[derive(Clone, Copy, Debug, PartialEq, Eq, Structural)]
pub enum Command {
    File,
    Compact,
    Permission,
    Model,
    Export,
}

/// What a command is typed as.
pub open spec fn command_name(c: Command) -> Seq<char> {
    match c {
        Command::File => "file"@,
        Command::Compact => "compact"@,
        Command::Permission => "permission"@,
        Command::Model => "model"@,
        Command::Export => "export"@,
    }
}

/// What a command is called.
pub open spec fn command_label(c: Command) -> Seq<char> {
    match c {
        Command::File => "文件"@,
        Command::Compact => "压缩"@,
        Command::Permission => "权限"@,
        Command::Model => "模型"@,
        Command::Export => "下载日志"@,
    }
}

impl Command {
    /// What the command is typed as.
    pub fn name(&self) -> (r: &'static str)
        ensures
            r@ == command_name(*self),
    {
        match self {
            Command::File => "file",
            Command::Compact => "compact",
            Command::Permission => "permission",
            Command::Model => "model",
            Command::Export => "export",
        }
    }

    /// What the command is called.
    pub fn label(&self) -> (r: &'static str)
        ensures
            r@ == command_label(*self),
    {
        match self {
            Command::File => "文件",
            Command::Compact => "压缩",
            Command::Permission => "权限",
            Command::Model => "模型",
            Command::Export => "下载日志",
        }
    }

    /// What the command does, where the menu says so.
    pub fn hint(&self) -> (r: Option<&'static str>)
        ensures
            match (*self, r) {
                (Command::File, r) => r is None,
                (Command::Compact, Some(s)) => s@ == "压缩以上对话内容"@,
                (Command::Permission, Some(s)) => s@ == "切换权限预设（沙箱模式与审批策略）"@,
                (Command::Model, Some(s)) => s@ == "选择本会话使用的模型"@,
                (Command::Export, Some(s)) => s@ == "将当前会话日志导出到本地目录"@,
                _ => false,
            },
    {
        match self {
            Command::File => None,
            Command::Compact => Some("压缩以上对话内容"),
            Command::Permission => Some("切换权限预设（沙箱模式与审批策略）"),
            Command::Model => Some("选择本会话使用的模型"),
            Command::Export => Some("将当前会话日志导出到本地目录"),
        }
    }
}

/// A row of the menu of commands.
#[derive(Clone, Copy, Debug, PartialEq, Eq, Structural)]
pub enum CommandRow {
    /// The head of the commands that add something.
    Adding,
    /// The head of the commands that do something.
    Doing,
    Item(Command),
}

/// All commands, in the order of the menu.
pub open spec fn all_commands() -> Seq<Command> {
    seq![Command::File, Command::Compact, Command::Permission, Command::Model, Command::Export]
}

/// Whether a command fits what was typed behind the slash.
pub open spec fn fits(c: Command, query: Seq<char>) -> bool {
    text::holds_text(command_name(c), query) || text::holds_text(command_label(c), query)
}

/// The rows of those of the commands that fit, in order.
pub open spec fn fitting(commands: Seq<Command>, query: Seq<char>) -> Seq<CommandRow>
    decreases commands.len(),
{
    if commands.len() == 0 {
        Seq::empty()
    } else {
        let head = fitting(commands.drop_last(), query);
        if fits(commands.last(), query) {
            head.push(CommandRow::Item(commands.last()))
        } else {
            head
        }
    }
}

/// The rows of the menu: all commands under their heads, or those that fit what
/// was typed.
pub open spec fn menu_rows(query: Seq<char>) -> Seq<CommandRow> {
    if query.len() == 0 {
        seq![
            CommandRow::Adding,
            CommandRow::Item(Command::File),
            CommandRow::Doing,
            CommandRow::Item(Command::Compact),
            CommandRow::Item(Command::Permission),
            CommandRow::Item(Command::Model),
            CommandRow::Item(Command::Export),
        ]
    } else {
        fitting(all_commands(), query)
    }
}

/// The rows of the menu of commands; none where nothing fits.
pub fn command_rows(query: &str) -> (r: Vec<CommandRow>)
    ensures
        r@ == menu_rows(query@),
{
    let mut r: Vec<CommandRow> = Vec::new();
    if text::char_count(query) == 0 {
        r.push(CommandRow::Adding);
        r.push(CommandRow::Item(Command::File));
        r.push(CommandRow::Doing);
        r.push(CommandRow::Item(Command::Compact));
        r.push(CommandRow::Item(Command::Permission));
        r.push(CommandRow::Item(Command::Model));
        r.push(CommandRow::Item(Command::Export));
        assert(r@ =~= menu_rows(query@));
        return r;
    }
    let all: [Command; 5] = [
        Command::File,
        Command::Compact,
        Command::Permission,
        Command::Model,
        Command::Export,
    ];
    assert(all@ =~= all_commands());
    assert(all@.take(0) =~= Seq::<Command>::empty());
    let mut i: usize = 0;
    while i < 5
        invariant
            i <= 5,
            all@.len() == 5,
            r@ == fitting(all@.take(i as int), query@),
        decreases 5 - i,
    {
        let ghost next = all@.take(i + 1);
        assert(next.drop_last() =~= all@.take(i as int));
        assert(next.last() == all@[i as int]);
        let c: Command = all[i];
        if text::contains_text(c.name(), query) || text::contains_text(c.label(), query) {
            r.push(CommandRow::Item(c));
        }
        i = i + 1;
    }
    assert(all@.take(5) =~= all@);
    r
}

/// Every command is listed before anything is typed, and still when its name
/// is.
pub proof fn every_command_is_found(c: Command)
    ensures
        menu_rows(command_name(c)).contains(CommandRow::Item(c)),
        menu_rows(Seq::empty()).contains(CommandRow::Item(c)),
{
    let name = command_name(c);
    reveal_strlit("file");
    reveal_strlit("compact");
    reveal_strlit("permission");
    reveal_strlit("model");
    reveal_strlit("export");
    assert(name.len() > 0);
    assert(text::stands_at(name, name, 0)) by {
        assert(name.subrange(0, name.len() as int) =~= name);
    }
    assert(fits(c, name));
    let all = all_commands();
    let i = match c {
        Command::File => 0int,
        Command::Compact => 1int,
        Command::Permission => 2int,
        Command::Model => 3int,
        Command::Export => 4int,
    };
    assert(all[i] == c);
    lemma_fitting_holds(all, name, i);
    let rows = menu_rows(Seq::empty());
    let k = if i == 0 {
        1int
    } else {
        i + 2
    };
    assert(rows[k] == CommandRow::Item(c));
}

proof fn lemma_fitting_holds(commands: Seq<Command>, query: Seq<char>, i: int)
    requires
        0 <= i < commands.len(),
        fits(commands[i], query),
    ensures
        fitting(commands, query).contains(CommandRow::Item(commands[i])),
    decreases commands.len(),
{
    let head = fitting(commands.drop_last(), query);
    let all = fitting(commands, query);
    if i == commands.len() - 1 {
        assert(all.last() == CommandRow::Item(commands[i]));
    } else {
        lemma_fitting_holds(commands.drop_last(), query, i);
        let k = choose|k: int| 0 <= k < head.len() && head[k] == CommandRow::Item(commands[i]);
        assert(all[k] == head[k]);
    }
}

/// Whether what is typed is the beginning of a command.
pub open spec fn is_slash(draft: Seq<char>) -> bool {
    text::begins(text::trimmed_start(draft), "/"@)
}

/// Whether choosing a command, or clicking beside the menu, takes back what is
/// typed.
pub fn clears_draft(draft: &str) -> (r: bool)
    ensures
        r == is_slash(draft@),
{
    let t: String = text::trim_start(draft);
    text::starts_with(t.as_str(), "/")
}

/// What the menu of commands is narrowed to by what is typed behind a slash.
/// There is no such menu before the first entry.
pub fn slash_query(empty: bool, draft: &str) -> (r: Option<String>)
    ensures
        r.deep_view() == (if !empty && is_slash(draft@) {
            Some(text::lowercased(text::trimmed(text::trimmed_start(draft@).skip(1))))
        } else {
            None
        }),
{
    if empty {
        return None;
    }
    let t: String = text::trim_start(draft);
    proof {
        reveal_strlit("/");
    }
    match text::strip_prefix(t.as_str(), "/") {
        Some(rest) => {
            let rest: String = text::trim(rest.as_str());
            Some(text::lower_case(rest.as_str()))
        },
        None => None,
    }
}

// ---------------------------------------------------------------------------
// which menu is open
// ---------------------------------------------------------------------------

/// Which menus are open, and how far the question before full access has come.
#[derive(Clone, Copy, Debug, PartialEq, Eq, Structural)]
pub struct Menus {
    pub command: bool,
    pub model: bool,
    pub permission: bool,
    pub confirm: bool,
    /// Whether the risk was acknowledged.
    pub acknowledged: bool,
}

/// What the choice of a command leads to.
#[derive(Clone, Copy, Debug, PartialEq, Eq, Structural)]
pub enum CommandAct {
    PickFiles,
    Compact,
    Export,
    Nothing,
}

impl Menus {
    /// No menu is open.
    pub fn new() -> (r: Self)
        ensures
            r == (Menus {
                command: false,
                model: false,
                permission: false,
                confirm: false,
                acknowledged: false,
            }),
    {
        Menus { command: false, model: false, permission: false, confirm: false, acknowledged: false }
    }

    /// Opens or closes the menu of commands; nothing while no workspace is chosen.
    pub fn toggle_command(&mut self, locked: bool)
        ensures
            *final(self) == (if locked {
                *old(self)
            } else {
                Menus { command: !old(self).command, model: false, ..*old(self) }
            }),
    {
        if !locked {
            self.command = !self.command;
            self.model = false;
        }
    }

    /// Opens or closes the menu of permissions; nothing while no workspace is
    /// chosen.
    pub fn toggle_permission(&mut self, locked: bool)
        ensures
            *final(self) == (if locked {
                *old(self)
            } else {
                Menus {
                    permission: !old(self).permission,
                    model: false,
                    command: false,
                    ..*old(self)
                }
            }),
    {
        if !locked {
            self.permission = !self.permission;
            self.model = false;
            self.command = false;
        }
    }

    /// Opens the menu of models.
    pub fn open_model(&mut self)
        ensures
            *final(self) == (Menus { model: true, ..*old(self) }),
    {
        self.model = true;
    }

    /// Whether the menu of commands is shown: it was opened, or a slash is
    /// typed.
    pub fn shows_commands(&self, locked: bool, slash: bool) -> (r: bool)
        ensures
            r == (!locked && (self.command || slash)),
    {
        !locked && (self.command || slash)
    }

    /// Chooses a command.
    pub fn choose_command(&mut self, c: Command) -> (r: CommandAct)
        ensures
            *final(self) == (Menus {
                command: false,
                model: old(self).model || c == Command::Model,
                permission: old(self).permission || c == Command::Permission,
                ..*old(self)
            }),
            r == (match c {
                Command::File => CommandAct::PickFiles,
                Command::Compact => CommandAct::Compact,
                Command::Export => CommandAct::Export,
                Command::Permission => CommandAct::Nothing,
                Command::Model => CommandAct::Nothing,
            }),
    {
        self.command = false;
        match c {
            Command::File => CommandAct::PickFiles,
            Command::Compact => CommandAct::Compact,
            Command::Export => CommandAct::Export,
            Command::Permission => {
                self.permission = true;
                CommandAct::Nothing
            },
            Command::Model => {
                self.model = true;
                CommandAct::Nothing
            },
        }
    }

    /// Chooses a permission. Full access is asked about first, unless it is
    /// given already. Returns whether to switch.
    pub fn pick_permission(&mut self, key: &str, current: &str) -> (r: bool)
        ensures
            r == !(key@ == "danger-full-access"@ && current@ != "danger-full-access"@),
            *final(self) == (Menus {
                permission: false,
                confirm: old(self).confirm || !r,
                ..*old(self)
            }),
    {
        self.permission = false;
        if text::same(key, "danger-full-access") && !text::same(current, "danger-full-access") {
            self.confirm = true;
            false
        } else {
            true
        }
    }

    /// Acknowledges the risk, or takes that back.
    pub fn toggle_acknowledged(&mut self)
        ensures
            *final(self) == (Menus { acknowledged: !old(self).acknowledged, ..*old(self) }),
    {
        self.acknowledged = !self.acknowledged;
    }

    /// Leaves the question about full access.
    pub fn cancel_full_access(&mut self)
        ensures
            *final(self) == (Menus { confirm: false, acknowledged: false, ..*old(self) }),
    {
        self.confirm = false;
        self.acknowledged = false;
    }

    /// Gives full access, once the risk was acknowledged. Returns whether to
    /// switch.
    pub fn enable_full_access(&mut self) -> (r: bool)
        ensures
            r == old(self).acknowledged,
            *final(self) == (if r {
                Menus { confirm: false, acknowledged: false, ..*old(self) }
            } else {
                *old(self)
            }),
    {
        if !self.acknowledged {
            return false;
        }
        self.confirm = false;
        self.acknowledged = false;
        true
    }
}

// ---------------------------------------------------------------------------
// models
// ---------------------------------------------------------------------------

/// A row of the menu of models.
#[derive(Debug)]
pub enum ModelRow {
    Provider(String),
    Model { provider: String, id: String, selected: bool },
}

/// What a row of the menu of models holds.
pub enum ModelRowView {
    Provider(Seq<char>),
    Model { provider: Seq<char>, id: Seq<char>, selected: bool },
}

impl DeepView for ModelRow {
    type V = ModelRowView;

    open spec fn deep_view(&self) -> ModelRowView {
        match self {
            ModelRow::Provider(name) => ModelRowView::Provider(name@),
            ModelRow::Model { provider, id, selected } => ModelRowView::Model {
                provider: provider@,
                id: id@,
                selected: *selected,
            },
        }
    }
}

/// The rows of the models of a provider.
pub open spec fn models_of(p: ProviderView, provider: Seq<char>, model: Seq<char>) -> Seq<
    ModelRowView,
> {
    Seq::new(
        p.models.len(),
        |i: int|
            ModelRowView::Model {
                provider: p.id,
                id: p.models[i].id,
                selected: provider == p.id && model == p.models[i].id,
            },
    )
}

/// The rows of the menu of models: each provider that has any, with its models
/// and a check at the one in use.
pub open spec fn model_menu(
    providers: Seq<ProviderView>,
    provider: Seq<char>,
    model: Seq<char>,
) -> Seq<ModelRowView>
    decreases providers.len(),
{
    if providers.len() == 0 {
        Seq::empty()
    } else {
        let head = model_menu(providers.drop_last(), provider, model);
        let p = providers.last();
        if p.models.len() == 0 {
            head
        } else {
            head.push(ModelRowView::Provider(p.name)) + models_of(p, provider, model)
        }
    }
}

/// The rows of the menu of models.
pub fn model_rows(providers: &Vec<CustomProvider>, provider: &str, model: &str) -> (r: Vec<ModelRow>)
    ensures
        r.deep_view() == model_menu(providers.deep_view(), provider@, model@),
{
    let mut r: Vec<ModelRow> = Vec::new();
    let ghost view = providers.deep_view();
    assert(view.take(0) =~= Seq::<ProviderView>::empty());
    assert(r.deep_view() =~= Seq::<ModelRowView>::empty());
    let mut i: usize = 0;
    while i < providers.len()
        invariant
            i <= providers@.len(),
            view == providers.deep_view(),
            r.deep_view() == model_menu(view.take(i as int), provider@, model@),
        decreases providers@.len() - i,
    {
        let ghost next = view.take(i + 1);
        assert(next.drop_last() =~= view.take(i as int));
        assert(next.last() == providers@[i as int].deep_view());
        let p: &CustomProvider = &providers[i];
        let ghost shown = p.deep_view();
        assert(shown.models.len() == p.models@.len());
        if p.models.len() > 0 {
            let ghost before = r.deep_view();
            r.push(ModelRow::Provider(p.name.clone()));
            let ghost head = before.push(ModelRowView::Provider(p.name@));
            assert(r.deep_view() =~= head);
            let ghost rows = models_of(shown, provider@, model@);
            assert(head + rows.take(0) =~= head);
            let mut k: usize = 0;
            while k < p.models.len()
                invariant
                    k <= p.models@.len(),
                    shown == p.deep_view(),
                    rows == models_of(shown, provider@, model@),
                    rows.len() == p.models@.len(),
                    r.deep_view() == head + rows.take(k as int),
                decreases p.models@.len() - k,
            {
                let id: &String = &p.models[k].id;
                let selected: bool = text::same(provider, p.id.as_str()) && text::same(
                    model,
                    id.as_str(),
                );
                let ghost so_far = r.deep_view();
                let row = ModelRow::Model { provider: p.id.clone(), id: id.clone(), selected };
                let ghost row_view = row.deep_view();
                r.push(row);
                assert(r.deep_view() =~= so_far.push(row_view));
                assert(shown.models[k as int].id == p.models@[k as int].id@);
                assert(row_view == rows[k as int]);
                assert(so_far.push(row_view) =~= head + rows.take(k + 1));
                k = k + 1;
            }
            assert(rows.take(k as int) =~= rows);
        }
        i = i + 1;
    }
    assert(view.take(i as int) =~= view);
    r
}

// ---------------------------------------------------------------------------
// names
// ---------------------------------------------------------------------------

/// The title of a session, or a word for one.
pub open spec fn title_of(metas: Seq<MetaView>, id: Seq<char>) -> Seq<char> {
    match roster::meta_at(metas, id, 0) {
        Some(i) => metas[i].title,
        None => "会话"@,
    }
}

/// The title of a session, or a word for one that is not at hand.
pub fn session_title(metas: &Vec<SessionMeta>, id: &str) -> (r: String)
    ensures
        r@ == title_of(metas.deep_view(), id@),
{
    match roster::find_meta(metas, id) {
        Some(i) => {
            assert(metas.deep_view()[i as int] == metas@[i as int].deep_view());
            metas[i].title.clone()
        },
        None => "会话".to_owned(),
    }
}

/// What stands in place of the editor while another session runs.
pub fn foreign_text(metas: &Vec<SessionMeta>, running: &str) -> (r: String)
    ensures
        r@ == "「"@ + title_of(metas.deep_view(), running@) + "」正在运行，本轮结束后可在此继续"@,
{
    let title: String = session_title(metas, running);
    text::concat3("「", title.as_str(), "」正在运行，本轮结束后可在此继续")
}

/// What the chosen workspace is called above a new session.
pub fn workspace_label(list: &Vec<WorkspaceInfo>, current: &Option<String>) -> (r: String)
    ensures
        r@ == (match current.deep_view() {
            Some(id) => match roster::at_id(list.deep_view(), id, 0) {
                Some(i) => list.deep_view()[i].title,
                None => "选择工作区"@,
            },
            None => "选择工作区"@,
        }),
{
    match current {
        Some(id) => match roster::find_workspace(list, id.as_str()) {
            Some(i) => {
                assert(list.deep_view()[i as int] == list@[i as int].deep_view());
                list[i].title.clone()
            },
            None => "选择工作区".to_owned(),
        },
        None => "选择工作区".to_owned(),
    }
}

/// Whether a picked folder is a workspace already.
pub fn has_folder(list: &Vec<WorkspaceInfo>, path: &str) -> (r: bool)
    ensures
        r == (exists|i: int| 0 <= i < list@.len() && (#[trigger] list.deep_view()[i]).path == path@),
{
    let ghost view = list.deep_view();
    let mut i: usize = 0;
    while i < list.len()
        invariant
            i <= list@.len(),
            view == list.deep_view(),
            view.len() == list@.len(),
            forall|k: int| 0 <= k < i ==> (#[trigger] view[k]).path != path@,
        decreases list@.len() - i,
    {
        assert(view[i as int] == list@[i as int].deep_view());
        if text::same(list[i].path.as_str(), path) {
            return true;
        }
        i = i + 1;
    }
    false
}

// ---------------------------------------------------------------------------
// laws of the menus
// ---------------------------------------------------------------------------

/// A query finds the commands whose name or label holds it, and no others.
pub proof fn query_finds_what_holds_it(query: Seq<char>, c: Command)
    requires
        query.len() > 0,
    ensures
        menu_rows(query).contains(CommandRow::Item(c)) <==> text::holds_text(command_name(c), query)
            || text::holds_text(command_label(c), query),
        !menu_rows(query).contains(CommandRow::Adding),
        !menu_rows(query).contains(CommandRow::Doing),
{
    let all = all_commands();
    assert(all.contains(c)) by {
        assert(all[0] is File && all[1] is Compact && all[2] is Permission && all[3] is Model
            && all[4] is Export);
    }
    lemma_fitting(all, query, c);
}

proof fn lemma_fitting(commands: Seq<Command>, query: Seq<char>, c: Command)
    ensures
        fitting(commands, query).contains(CommandRow::Item(c)) <==> commands.contains(c) && fits(
            c,
            query,
        ),
        !fitting(commands, query).contains(CommandRow::Adding),
        !fitting(commands, query).contains(CommandRow::Doing),
    decreases commands.len(),
{
    if commands.len() > 0 {
        let head = commands.drop_last();
        let rest = fitting(head, query);
        let all = fitting(commands, query);
        lemma_fitting(head, query, c);
        assert(commands =~= head.push(commands.last()));
        if fits(commands.last(), query) {
            assert forall|r: CommandRow| #[trigger] all.contains(r) <==> rest.contains(r) || r
                == CommandRow::Item(commands.last()) by {
                if rest.contains(r) {
                    let k = choose|k: int| 0 <= k < rest.len() && rest[k] == r;
                    assert(all[k] == r);
                }
                if r == CommandRow::Item(commands.last()) {
                    assert(all[all.len() - 1] == r);
                }
                if all.contains(r) {
                    let k = choose|k: int| 0 <= k < all.len() && all[k] == r;
                    if k < rest.len() {
                        assert(rest[k] == r);
                    }
                }
            }
        }
        assert(commands.contains(c) <==> head.contains(c) || c == commands.last()) by {
            if head.contains(c) {
                let k = choose|k: int| 0 <= k < head.len() && head[k] == c;
                assert(commands[k] == c);
            }
            if commands.contains(c) {
                let k = choose|k: int| 0 <= k < commands.len() && commands[k] == c;
                if k < head.len() {
                    assert(head[k] == c);
                }
            }
            assert(commands[commands.len() - 1] == commands.last());
        }
    }
}

/// A draft is a command where its first character that is no blank is a slash.
pub proof fn command_starts_with_a_slash(draft: Seq<char>, i: int)
    requires
        0 <= i < draft.len(),
        !text::is_white(draft[i]),
        forall|j: int| 0 <= j < i ==> text::is_white(#[trigger] draft[j]),
    ensures
        is_slash(draft) <==> draft[i] == '/',
    decreases draft.len(),
{
    reveal_strlit("/");
    if i > 0 {
        assert(text::is_white(draft[0]));
        assert forall|j: int| 0 <= j < i - 1 implies text::is_white(
            #[trigger] draft.skip(1)[j],
        ) by {
            assert(draft.skip(1)[j] == draft[j + 1]);
        }
        command_starts_with_a_slash(draft.skip(1), i - 1);
    } else {
        assert(text::trimmed_start(draft) == draft);
        assert("/"@.len() == 1 && "/"@[0] == '/');
        if draft[0] == '/' {
            assert(draft.take(1) =~= "/"@);
        }
        assert(draft.take(1)[0] == draft[0]);
    }
}

/// The menus of two lists of providers stand one behind the other; a provider
/// with models is named in front of them, one without is left out.
pub proof fn every_model_is_on_the_menu(
    a: Seq<ProviderView>,
    b: Seq<ProviderView>,
    p: ProviderView,
    provider: Seq<char>,
    model: Seq<char>,
    i: int,
)
    ensures
        model_menu(a + b, provider, model) == model_menu(a, provider, model) + model_menu(
            b,
            provider,
            model,
        ),
        p.models.len() == 0 ==> model_menu(seq![p], provider, model).len() == 0,
        0 <= i < p.models.len() ==> ({
            let rows = model_menu(seq![p], provider, model);
            &&& rows.len() == p.models.len() + 1
            &&& rows[0] == ModelRowView::Provider(p.name)
            &&& rows[i + 1] == (ModelRowView::Model {
                provider: p.id,
                id: p.models[i].id,
                selected: p.id == provider && p.models[i].id == model,
            })
        }),
    decreases b.len(),
{
    reveal_with_fuel(model_menu, 2);
    assert(seq![p].drop_last() =~= Seq::<ProviderView>::empty());
    if b.len() > 0 {
        every_model_is_on_the_menu(a, b.drop_last(), p, provider, model, i);
        assert((a + b).drop_last() =~= a + b.drop_last());
        assert(model_menu(a + b, provider, model) =~= model_menu(a, provider, model) + model_menu(
            b,
            provider,
            model,
        ));
    } else {
        assert(a + b =~= a);
        assert(model_menu(a + b, provider, model) =~= model_menu(a, provider, model) + model_menu(
            b,
            provider,
            model,
        ));
    }
}

/// A session goes by its own title, and one that is not there by the general
/// word.
pub proof fn session_goes_by_its_title(metas: Seq<MetaView>, id: Seq<char>, i: int)
    ensures
        0 <= i < metas.len() && metas[i].id == id && (forall|j: int|
            0 <= j < i ==> (#[trigger] metas[j]).id != id) ==> title_of(metas, id) == metas[i].title,
        (forall|j: int| 0 <= j < metas.len() ==> (#[trigger] metas[j]).id != id) ==> title_of(
            metas,
            id,
        ) == "会话"@,
{
    lemma_meta_place(metas, id, 0);
}

proof fn lemma_meta_place(metas: Seq<MetaView>, id: Seq<char>, from: int)
    requires
        0 <= from,
    ensures
        match roster::meta_at(metas, id, from) {
            Some(i) => from <= i < metas.len() && metas[i].id == id && forall|j: int|
                from <= j < i ==> (#[trigger] metas[j]).id != id,
            None => forall|j: int| from <= j < metas.len() ==> (#[trigger] metas[j]).id != id,
        },
    decreases metas.len() - from,
{
    if from < metas.len() && metas[from].id != id {
        lemma_meta_place(metas, id, from + 1);
    }
}

} // verus!
