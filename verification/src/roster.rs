//! The sessions and workspaces at hand: which session belongs where, and what
//! starting, moving, renaming or forking one does.

use crate::text;
use crate::workspace::{WorkspaceInfo, WorkspaceView};
use vstd::prelude::*;

verus! {

// ---------------------------------------------------------------------------
// ids
// ---------------------------------------------------------------------------

/// Whether a character is a hexadecimal digit in lower case.
pub open spec fn is_hex(c: char) -> bool {
    text::is_digit(c) || 'a' <= c <= 'f'
}

/// Whether a text has the form of a random UUID.
pub open spec fn is_uuid(s: Seq<char>) -> bool {
    &&& s.len() == 36
    &&& s[14] == '4'
    &&& forall|i: int|
        0 <= i < 36 ==> if i == 8 || i == 13 || i == 18 || i == 23 {
            #[trigger] s[i] == '-'
        } else {
            is_hex(s[i])
        }
}

/// `uuid::Uuid::new_v4` makes a random UUID, which is written as 36 characters:
/// hexadecimal digits in lower case, with hyphens behind the first 8 and each
/// further 4 digits, and 4 as its version. Nothing else is said of it: it is
/// another one at every call.
#[verifier::external_body]
pub(crate) fn new_uuid() -> (r: String)
    ensures
        is_uuid(r@),
{
    uuid::Uuid::new_v4().to_string()
}

/// The id of a new session.
pub fn new_web_session_id() -> (r: String)
    ensures
        text::behind(r@, "session-"@) matches Some(id) && is_uuid(id),
{
    let id = new_uuid();
    let r = text::concat2("session-", id.as_str());
    proof {
        assert(r@.subrange(0, "session-"@.len() as int) =~= "session-"@);
        assert(r@.subrange("session-"@.len() as int, r@.len() as int) =~= id@);
        assert(r@.skip("session-"@.len() as int) =~= id@);
    }
    r
}

// ---------------------------------------------------------------------------
// workspaces
// ---------------------------------------------------------------------------

/// A session at hand.
#[derive(Clone, Debug)]
pub struct SessionMeta {
    pub id: String,
    pub title: String,
    pub time_label: String,
    pub cwd: Option<String>,
    /// Whether no turn was started in it.
    pub blank: bool,
}

/// The contents of a session at hand.
pub struct MetaView {
    pub id: Seq<char>,
    pub title: Seq<char>,
    pub time_label: Seq<char>,
    pub cwd: Option<Seq<char>>,
    pub blank: bool,
}

impl DeepView for SessionMeta {
    type V = MetaView;

    open spec fn deep_view(&self) -> MetaView {
        MetaView {
            id: self.id@,
            title: self.title@,
            time_label: self.time_label@,
            cwd: self.cwd.deep_view(),
            blank: self.blank,
        }
    }
}

/// The workspaces and the one that is chosen.
pub struct Workspaces {
    pub list: Vec<WorkspaceInfo>,
    pub current: Option<String>,
}

/// The contents of the workspaces.
pub struct WorkspacesView {
    pub list: Seq<WorkspaceView>,
    pub current: Option<Seq<char>>,
}

impl DeepView for Workspaces {
    type V = WorkspacesView;

    open spec fn deep_view(&self) -> WorkspacesView {
        WorkspacesView { list: self.list.deep_view(), current: self.current.deep_view() }
    }
}

/// The ids without one of them.
pub open spec fn without_id(ids: Seq<Seq<char>>, id: Seq<char>) -> Seq<Seq<char>>
    decreases ids.len(),
{
    if ids.len() == 0 {
        Seq::empty()
    } else if ids.last() == id {
        without_id(ids.drop_last(), id)
    } else {
        without_id(ids.drop_last(), id).push(ids.last())
    }
}

/// The first workspace from `from` on with an id.
pub open spec fn at_id(list: Seq<WorkspaceView>, id: Seq<char>, from: int) -> Option<int>
    decreases list.len() - from,
{
    if from < 0 || from >= list.len() {
        None
    } else if list[from].id == id {
        Some(from)
    } else {
        at_id(list, id, from + 1)
    }
}

/// The first workspace from `from` on with a session.
pub open spec fn holder(list: Seq<WorkspaceView>, session: Seq<char>, from: int) -> Option<int>
    decreases list.len() - from,
{
    if from < 0 || from >= list.len() {
        None
    } else if list[from].session_ids.contains(session) {
        Some(from)
    } else {
        holder(list, session, from + 1)
    }
}

/// The workspaces with a session taken out of all of them.
pub open spec fn taken_out(list: Seq<WorkspaceView>, session: Seq<char>) -> Seq<WorkspaceView> {
    list.map_values(
        |w: WorkspaceView|
            WorkspaceView { session_ids: without_id(w.session_ids, session), ..w },
    )
}

/// The workspaces with a session at the head of one of them and in no other.
pub open spec fn assigned(
    list: Seq<WorkspaceView>,
    session: Seq<char>,
    workspace: Option<Seq<char>>,
) -> Seq<WorkspaceView> {
    let out = taken_out(list, session);
    match workspace {
        Some(id) => match at_id(out, id, 0) {
            Some(i) => out.update(
                i,
                WorkspaceView { session_ids: seq![session] + out[i].session_ids, ..out[i] },
            ),
            None => out,
        },
        None => out,
    }
}

/// The workspaces with another title for one of them.
pub open spec fn retitled(list: Seq<WorkspaceView>, id: Seq<char>, title: Seq<char>) -> Seq<
    WorkspaceView,
> {
    match at_id(list, id, 0) {
        Some(i) => list.update(i, WorkspaceView { title, ..list[i] }),
        None => list,
    }
}

/// The workspaces without those of an id.
pub open spec fn without_workspace(list: Seq<WorkspaceView>, id: Seq<char>) -> Seq<WorkspaceView>
    decreases list.len(),
{
    if list.len() == 0 {
        Seq::empty()
    } else if list.last().id == id {
        without_workspace(list.drop_last(), id)
    } else {
        without_workspace(list.drop_last(), id).push(list.last())
    }
}

/// The ids without one of them.
pub fn remove_id(ids: &Vec<String>, id: &str) -> (r: Vec<String>)
    ensures
        r.deep_view() == without_id(ids.deep_view(), id@),
{
    let ghost view = ids.deep_view();
    let mut out: Vec<String> = Vec::new();
    let mut i: usize = 0;
    assert(out.deep_view() =~= without_id(view.take(0), id@));
    while i < ids.len()
        invariant
            i <= ids@.len(),
            view == ids.deep_view(),
            out.deep_view() == without_id(view.take(i as int), id@),
        decreases ids@.len() - i,
    {
        assert(view.take(i + 1).drop_last() =~= view.take(i as int));
        assert(view.take(i + 1).last() == ids@[i as int]@);
        if !text::same(ids[i].as_str(), id) {
            let ghost before = out.deep_view();
            out.push(ids[i].clone());
            assert(out.deep_view() =~= before.push(ids@[i as int]@));
        }
        i += 1;
    }
    assert(view.take(i as int) =~= view);
    out
}

/// Whether a text is among others.
pub fn among(ids: &Vec<String>, id: &str) -> (r: bool)
    ensures
        r == ids.deep_view().contains(id@),
{
    let ghost view = ids.deep_view();
    let mut i: usize = 0;
    while i < ids.len()
        invariant
            i <= ids@.len(),
            view == ids.deep_view(),
            forall|j: int| 0 <= j < i ==> #[trigger] view[j] != id@,
        decreases ids@.len() - i,
    {
        assert(view[i as int] == ids@[i as int]@);
        if text::same(ids[i].as_str(), id) {
            assert(view[i as int] == id@);
            return true;
        }
        i += 1;
    }
    false
}

/// The place of the first workspace with an id.
pub fn find_workspace(list: &Vec<WorkspaceInfo>, id: &str) -> (r: Option<usize>)
    ensures
        r matches Some(i) ==> i < list@.len(),
        at_id(list.deep_view(), id@, 0) == (match r {
            Some(i) => Some(i as int),
            None => None,
        }),
{
    let ghost view = list.deep_view();
    let mut i: usize = 0;
    while i < list.len()
        invariant
            i <= list@.len(),
            view == list.deep_view(),
            view.len() == list@.len(),
            at_id(view, id@, 0) == at_id(view, id@, i as int),
        decreases list@.len() - i,
    {
        assert(view[i as int] == list@[i as int].deep_view());
        if text::same(list[i].id.as_str(), id) {
            return Some(i);
        }
        i += 1;
    }
    None
}

/// The workspace that a session belongs to.
pub fn workspace_of_session(list: &Vec<WorkspaceInfo>, session: &str) -> (r: Option<usize>)
    ensures
        r matches Some(i) ==> i < list@.len(),
        holder(list.deep_view(), session@, 0) == (match r {
            Some(i) => Some(i as int),
            None => None,
        }),
{
    let ghost view = list.deep_view();
    let mut i: usize = 0;
    while i < list.len()
        invariant
            i <= list@.len(),
            view == list.deep_view(),
            view.len() == list@.len(),
            holder(view, session@, 0) == holder(view, session@, i as int),
        decreases list@.len() - i,
    {
        assert(view[i as int] == list@[i as int].deep_view());
        if among(&list[i].session_ids, session) {
            return Some(i);
        }
        i += 1;
    }
    None
}

/// The title of a workspace: the name of its folder, or its path where the
/// folder has none.
pub open spec fn folder_title(path: Seq<char>, name: Option<Seq<char>>) -> Seq<char> {
    match name {
        Some(n) => if n.len() > 0 {
            n
        } else {
            path
        },
        None => path,
    }
}

impl Workspaces {
    /// Puts a session at the head of a workspace, or of none, and takes it out
    /// of every other.
    pub fn assign_session_to_workspace(&mut self, session: &str, workspace: Option<&str>)
        ensures
            final(self).list.deep_view() == assigned(
                old(self).list.deep_view(),
                session@,
                (match workspace {
                    Some(w) => Some(w@),
                    None => None,
                }),
            ),
            final(self).current.deep_view() == old(self).current.deep_view(),
    {
        let ghost start = self.list.deep_view();
        let ghost out = taken_out(start, session@);
        let mut i: usize = 0;
        while i < self.list.len()
            invariant
                i <= self.list@.len(),
                self.list@.len() == start.len(),
                out == taken_out(start, session@),
                self.current.deep_view() == old(self).current.deep_view(),
                forall|j: int|
                    0 <= j < i ==> #[trigger] self.list@[j].deep_view() == out[j],
                forall|j: int|
                    i <= j < start.len() ==> #[trigger] self.list@[j].deep_view() == start[j],
            decreases self.list@.len() - i,
        {
            assert(self.list@[i as int].deep_view() == start[i as int]);
            let kept = remove_id(&self.list[i].session_ids, session);
            self.list[i].session_ids = kept;
            assert(self.list@[i as int].deep_view() == out[i as int]);
            i += 1;
        }
        assert(self.list.deep_view() =~= out);
        if let Some(id) = workspace {
            if let Some(k) = find_workspace(&self.list, id) {
                let ghost before = self.list@[k as int].deep_view();
                assert(out[k as int] == before);
                let mut ids: Vec<String> = Vec::new();
                ids.push(session.to_string());
                let ghost one = ids.deep_view();
                assert(one =~= seq![session@]);
                let ghost rest = self.list@[k as int].session_ids.deep_view();
                let mut j: usize = 0;
                while j < self.list[k].session_ids.len()
                    invariant
                        k < self.list@.len(),
                        j <= self.list@[k as int].session_ids@.len(),
                        rest == self.list@[k as int].session_ids.deep_view(),
                        ids.deep_view() == seq![session@] + rest.take(j as int),
                        self.list.deep_view() == out,
                        self.current.deep_view() == old(self).current.deep_view(),
                    decreases self.list@[k as int].session_ids@.len() - j,
                {
                    let ghost b = ids.deep_view();
                    ids.push(self.list[k].session_ids[j].clone());
                    assert(ids.deep_view() =~= b.push(
                        self.list@[k as int].session_ids@[j as int]@,
                    ));
                    assert(ids.deep_view() =~= seq![session@] + rest.take(j + 1));
                    j += 1;
                }
                assert(rest.take(j as int) =~= rest);
                assert(self.list.deep_view()[k as int] == self.list@[k as int].deep_view());
                self.list[k].session_ids = ids;
                assert(self.list.deep_view() =~= out.update(
                    k as int,
                    WorkspaceView { session_ids: seq![session@] + rest, ..out[k as int] },
                ));
            }
        }
    }

    /// Adds a workspace for a folder and chooses it. Returns its id.
    pub fn create_workspace(&mut self, path: String, name: Option<String>) -> (r: String)
        ensures
            is_uuid(r@),
            final(self).current.deep_view() == Some(r@),
            final(self).list.deep_view() == old(self).list.deep_view().push(
                WorkspaceView {
                    id: r@,
                    title: folder_title(path@, name.deep_view()),
                    path: path@,
                    session_ids: Seq::empty(),
                },
            ),
    {
        let ghost before = self.list.deep_view();
        let title = match name {
            Some(n) => if text::char_count(n.as_str()) > 0 {
                n
            } else {
                path.clone()
            },
            None => path.clone(),
        };
        let id = new_uuid();
        let w = WorkspaceInfo { id: id.clone(), title, path, session_ids: Vec::new() };
        assert(w.session_ids.deep_view() =~= Seq::empty());
        self.list.push(w);
        assert(self.list.deep_view() =~= before.push(w.deep_view()));
        self.current = Some(id.clone());
        id
    }

    /// Gives a workspace another title.
    pub fn rename_workspace(&mut self, id: &str, title: String)
        ensures
            final(self).list.deep_view() == retitled(old(self).list.deep_view(), id@, title@),
            final(self).current.deep_view() == old(self).current.deep_view(),
    {
        let ghost before = self.list.deep_view();
        if let Some(i) = find_workspace(&self.list, id) {
            assert(before[i as int] == self.list@[i as int].deep_view());
            self.list[i].title = title;
            assert(self.list.deep_view() =~= before.update(
                i as int,
                WorkspaceView { title: title@, ..before[i as int] },
            ));
        }
    }

    /// Removes a workspace; its sessions then belong to none. A workspace that
    /// was chosen no longer is. Says whether that was so.
    pub fn delete_workspace(&mut self, id: &str) -> (r: bool)
        ensures
            final(self).list.deep_view() == without_workspace(old(self).list.deep_view(), id@),
            r == (old(self).current.deep_view() == Some(id@)),
            final(self).current.deep_view() == (if r {
                None
            } else {
                old(self).current.deep_view()
            }),
    {
        let ghost view = self.list.deep_view();
        let ghost raw = self.list@;
        let mut old_list: Vec<WorkspaceInfo> = Vec::new();
        std::mem::swap(&mut self.list, &mut old_list);
        assert(self.list.deep_view() =~= without_workspace(view.take(0), id@));
        for w in it: old_list
            invariant
                it.seq() == raw,
                view.len() == raw.len(),
                forall|i: int| 0 <= i < raw.len() ==> view[i] == #[trigger] raw[i].deep_view(),
                self.current == old(self).current,
                self.list.deep_view() == without_workspace(view.take(it.index() as int), id@),
        {
            let ghost k = it.index() as int;
            assert(view.take(k + 1).drop_last() =~= view.take(k));
            assert(view.take(k + 1).last() == w.deep_view());
            if !text::same(w.id.as_str(), id) {
                let ghost before = self.list.deep_view();
                self.list.push(w);
                assert(self.list.deep_view() =~= before.push(w.deep_view()));
            }
        }
        assert(view.take(view.len() as int) =~= view);
        let chosen = match &self.current {
            Some(c) => text::same(c.as_str(), id),
            None => false,
        };
        if chosen {
            self.current = None;
        }
        chosen
    }
}

// ---------------------------------------------------------------------------
// where a new session goes
// ---------------------------------------------------------------------------

/// The workspace of the first session that belongs to one.
pub open spec fn recent_holder(list: Seq<WorkspaceView>, metas: Seq<MetaView>, from: int) -> Option<int>
    decreases metas.len() - from,
{
    if from < 0 || from >= metas.len() {
        None
    } else {
        match holder(list, metas[from].id, 0) {
            Some(i) => Some(i),
            None => recent_holder(list, metas, from + 1),
        }
    }
}

/// The workspace of a new session: the chosen one, else that of the session at
/// hand, else that of the most recent session that has one, else the first.
pub open spec fn target_of(w: WorkspacesView, session: Seq<char>, metas: Seq<MetaView>) -> Option<
    Seq<char>,
> {
    match w.current {
        Some(id) => Some(id),
        None => match holder(w.list, session, 0) {
            Some(i) => Some(w.list[i].id),
            None => match recent_holder(w.list, metas, 0) {
                Some(i) => Some(w.list[i].id),
                None => if w.list.len() > 0 {
                    Some(w.list[0].id)
                } else {
                    None
                },
            },
        },
    }
}

/// The path of a workspace.
pub open spec fn path_at(list: Seq<WorkspaceView>, id: Seq<char>) -> Option<Seq<char>> {
    match at_id(list, id, 0) {
        Some(i) => Some(list[i].path),
        None => None,
    }
}

/// What is to be done for a new session.
#[derive(Clone, Debug)]
pub enum StartTarget {
    /// A turn runs: nothing but to say so.
    Busy,
    /// There is no workspace: a session that is not kept.
    Draft,
    /// A session in a workspace.
    In { workspace: String, cwd: String },
}

/// The contents of what is to be done for a new session.
pub enum StartView {
    Busy,
    Draft,
    In { workspace: Seq<char>, cwd: Seq<char> },
}

impl DeepView for StartTarget {
    type V = StartView;

    open spec fn deep_view(&self) -> StartView {
        match self {
            StartTarget::Busy => StartView::Busy,
            StartTarget::Draft => StartView::Draft,
            StartTarget::In { workspace, cwd } => StartView::In { workspace: workspace@, cwd: cwd@ },
        }
    }
}

/// What is to be done for a new session.
pub open spec fn start_of(w: WorkspacesView, busy: bool, session: Seq<char>, metas: Seq<MetaView>) -> StartView {
    if busy {
        StartView::Busy
    } else {
        match target_of(w, session, metas) {
            Some(id) => match path_at(w.list, id) {
                Some(cwd) => StartView::In { workspace: id, cwd },
                None => StartView::Draft,
            },
            None => StartView::Draft,
        }
    }
}

impl Workspaces {
    fn recent_workspace(&self, metas: &Vec<SessionMeta>) -> (r: Option<usize>)
        ensures
            r matches Some(i) ==> i < self.list@.len(),
            recent_holder(self.list.deep_view(), metas.deep_view(), 0) == (match r {
                Some(i) => Some(i as int),
                None => None,
            }),
    {
        let ghost view = metas.deep_view();
        let ghost list = self.list.deep_view();
        let mut i: usize = 0;
        while i < metas.len()
            invariant
                i <= metas@.len(),
                view == metas.deep_view(),
                view.len() == metas@.len(),
                list == self.list.deep_view(),
                recent_holder(list, view, 0) == recent_holder(list, view, i as int),
            decreases metas@.len() - i,
        {
            assert(view[i as int] == metas@[i as int].deep_view());
            if let Some(k) = workspace_of_session(&self.list, metas[i].id.as_str()) {
                return Some(k);
            }
            i += 1;
        }
        None
    }

    /// The workspace of a new session.
    pub fn resolve_target_workspace(&self, session: &str, metas: &Vec<SessionMeta>) -> (r: Option<
        String,
    >)
        ensures
            r.deep_view() == target_of(self.deep_view(), session@, metas.deep_view()),
    {
        let ghost list = self.list.deep_view();
        assert(list.len() == self.list@.len());
        if let Some(id) = &self.current {
            return Some(id.clone());
        }
        if let Some(i) = workspace_of_session(&self.list, session) {
            assert(list[i as int] == self.list@[i as int].deep_view());
            return Some(self.list[i].id.clone());
        }
        if let Some(i) = self.recent_workspace(metas) {
            assert(list[i as int] == self.list@[i as int].deep_view());
            return Some(self.list[i].id.clone());
        }
        if self.list.len() > 0 {
            assert(list[0] == self.list@[0].deep_view());
            Some(self.list[0].id.clone())
        } else {
            None
        }
    }

    /// The path of a workspace.
    pub fn path_of(&self, id: &str) -> (r: Option<String>)
        ensures
            r.deep_view() == path_at(self.list.deep_view(), id@),
    {
        match find_workspace(&self.list, id) {
            Some(i) => {
                assert(self.list.deep_view()[i as int] == self.list@[i as int].deep_view());
                Some(self.list[i].path.clone())
            },
            None => None,
        }
    }

    /// What is to be done for a new session.
    pub fn start_target(&self, busy: bool, session: &str, metas: &Vec<SessionMeta>) -> (r: StartTarget)
        ensures
            r.deep_view() == start_of(self.deep_view(), busy, session@, metas.deep_view()),
    {
        if busy {
            return StartTarget::Busy;
        }
        match self.resolve_target_workspace(session, metas) {
            Some(workspace) => match self.path_of(workspace.as_str()) {
                Some(cwd) => StartTarget::In { workspace, cwd },
                None => StartTarget::Draft,
            },
            None => StartTarget::Draft,
        }
    }

    /// The folder in which an empty session is bound: that of the chosen
    /// workspace, else the one at hand.
    pub fn bound_path(&self, cwd: &str) -> (r: String)
        ensures
            r@ == (match self.current.deep_view() {
                Some(id) => match path_at(self.list.deep_view(), id) {
                    Some(p) => p,
                    None => cwd@,
                },
                None => cwd@,
            }),
    {
        match &self.current {
            Some(id) => match self.path_of(id.as_str()) {
                Some(p) => p,
                None => cwd.to_string(),
            },
            None => cwd.to_string(),
        }
    }
}

/// Whether a session lies in a folder.
pub open spec fn lies_in(m: MetaView, cwd: Seq<char>) -> bool {
    m.cwd == Some(cwd)
}

/// Whether the session at hand is blank and lies in the folder.
pub open spec fn reuses_current(
    metas: Seq<MetaView>,
    session: Seq<char>,
    blank: bool,
    cwd: Seq<char>,
) -> bool {
    blank && exists|i: int|
        0 <= i < metas.len() && (#[trigger] metas[i]).id == session && lies_in(metas[i], cwd)
}

/// Whether another session is to be looked at: in the folder and not archived.
pub open spec fn may_reuse(
    m: MetaView,
    session: Seq<char>,
    archived: Seq<Seq<char>>,
    cwd: Seq<char>,
) -> bool {
    m.id != session && !archived.contains(m.id) && lies_in(m, cwd)
}

/// The other sessions to look at, in order.
pub open spec fn to_look_at(
    metas: Seq<MetaView>,
    session: Seq<char>,
    archived: Seq<Seq<char>>,
    cwd: Seq<char>,
    n: int,
) -> Seq<Seq<char>>
    decreases n,
{
    if n <= 0 {
        Seq::empty()
    } else {
        let head = to_look_at(metas, session, archived, cwd, n - 1);
        if may_reuse(metas[n - 1], session, archived, cwd) {
            head.push(metas[n - 1].id)
        } else {
            head
        }
    }
}

/// Which sessions may stand in for a new one.
#[derive(Clone, Debug)]
pub enum BlankSearch {
    /// The session at hand does.
    Current,
    /// The first of these that turns out blank does.
    Among(Vec<String>),
}

fn lies_in_folder(m: &SessionMeta, cwd: &str) -> (r: bool)
    ensures
        r == lies_in(m.deep_view(), cwd@),
{
    match &m.cwd {
        Some(c) => text::same(c.as_str(), cwd),
        None => false,
    }
}

/// Which sessions may stand in for a new one in a folder. The session at hand
/// is known to be blank or not; the others have yet to be looked at.
pub fn blank_session_in(
    metas: &Vec<SessionMeta>,
    session: &str,
    blank: bool,
    archived: &Vec<String>,
    cwd: &str,
) -> (r: BlankSearch)
    ensures
        match r {
            BlankSearch::Current => reuses_current(metas.deep_view(), session@, blank, cwd@),
            BlankSearch::Among(ids) => !reuses_current(metas.deep_view(), session@, blank, cwd@)
                && ids.deep_view() == to_look_at(
                metas.deep_view(),
                session@,
                archived.deep_view(),
                cwd@,
                metas@.len() as int,
            ),
        },
{
    let ghost view = metas.deep_view();
    let ghost gone = archived.deep_view();
    let mut out: Vec<String> = Vec::new();
    let mut i: usize = 0;
    assert(out.deep_view() =~= Seq::empty());
    while i < metas.len()
        invariant
            i <= metas@.len(),
            view == metas.deep_view(),
            view.len() == metas@.len(),
            gone == archived.deep_view(),
            forall|j: int|
                0 <= j < i ==> !(blank && (#[trigger] view[j]).id == session@ && lies_in(
                    view[j],
                    cwd@,
                )),
            out.deep_view() == to_look_at(view, session@, gone, cwd@, i as int),
        decreases metas@.len() - i,
    {
        assert(view[i as int] == metas@[i as int].deep_view());
        let m: &SessionMeta = &metas[i];
        let here = lies_in_folder(m, cwd);
        if text::same(m.id.as_str(), session) {
            if blank && here {
                return BlankSearch::Current;
            }
        } else if here && !among(archived, m.id.as_str()) {
            let ghost before = out.deep_view();
            out.push(m.id.clone());
            assert(out.deep_view() =~= before.push(m.id@));
        }
        i += 1;
    }
    BlankSearch::Among(out)
}

/// Whether the empty session at hand, left for a blank one, is deleted: it
/// belongs to no workspace, and its log holds no turn.
pub fn drops_left_session(list: &Vec<WorkspaceInfo>, session: &str, log_blank: bool) -> (r: bool)
    ensures
        r == (log_blank && holder(list.deep_view(), session@, 0) is None),
{
    log_blank && workspace_of_session(list, session).is_none()
}

/// Whether the empty session at hand, left for a new one, is deleted: it lies
/// in another folder, and its log holds no turn.
pub fn drops_moved_session(cwd: &str, bound: &str, log_blank: bool) -> (r: bool)
    ensures
        r == (log_blank && cwd@ != bound@),
{
    log_blank && !text::same(cwd, bound)
}

/// The sessions without those of an id.
pub open spec fn metas_without(metas: Seq<MetaView>, id: Seq<char>) -> Seq<MetaView>
    decreases metas.len(),
{
    if metas.len() == 0 {
        Seq::empty()
    } else if metas.last().id == id {
        metas_without(metas.drop_last(), id)
    } else {
        metas_without(metas.drop_last(), id).push(metas.last())
    }
}

/// Takes a deleted session off the list.
pub fn forget_session(metas: Vec<SessionMeta>, id: &str) -> (r: Vec<SessionMeta>)
    ensures
        r.deep_view() == metas_without(metas.deep_view(), id@),
{
    let ghost view = metas.deep_view();
    let ghost raw = metas@;
    let mut out: Vec<SessionMeta> = Vec::new();
    assert(out.deep_view() =~= metas_without(view.take(0), id@));
    for m in it: metas
        invariant
            it.seq() == raw,
            view.len() == raw.len(),
            forall|i: int| 0 <= i < raw.len() ==> view[i] == #[trigger] raw[i].deep_view(),
            out.deep_view() == metas_without(view.take(it.index() as int), id@),
    {
        let ghost k = it.index() as int;
        assert(view.take(k + 1).drop_last() =~= view.take(k));
        assert(view.take(k + 1).last() == m.deep_view());
        if !text::same(m.id.as_str(), id) {
            let ghost before = out.deep_view();
            out.push(m);
            assert(out.deep_view() =~= before.push(m.deep_view()));
        }
    }
    assert(view.take(view.len() as int) =~= view);
    out
}

/// The entry of a new session.
pub open spec fn new_meta(id: Seq<char>, cwd: Seq<char>) -> MetaView {
    MetaView { id, title: "新会话"@, time_label: "刚刚"@, cwd: Some(cwd), blank: true }
}

/// The entry of a new session.
pub fn new_session_meta(id: String, cwd: String) -> (r: SessionMeta)
    ensures
        r.deep_view() == new_meta(id@, cwd@),
{
    SessionMeta {
        id,
        title: "新会话".to_string(),
        time_label: "刚刚".to_string(),
        cwd: Some(cwd),
        blank: true,
    }
}

// ---------------------------------------------------------------------------
// renaming and forking
// ---------------------------------------------------------------------------

/// The first session from `from` on with an id.
pub open spec fn meta_at(metas: Seq<MetaView>, id: Seq<char>, from: int) -> Option<int>
    decreases metas.len() - from,
{
    if from < 0 || from >= metas.len() {
        None
    } else if metas[from].id == id {
        Some(from)
    } else {
        meta_at(metas, id, from + 1)
    }
}

/// The place of the first session with an id.
pub fn find_meta(metas: &Vec<SessionMeta>, id: &str) -> (r: Option<usize>)
    ensures
        r matches Some(i) ==> i < metas@.len(),
        meta_at(metas.deep_view(), id@, 0) == (match r {
            Some(i) => Some(i as int),
            None => None,
        }),
{
    let ghost view = metas.deep_view();
    let mut i: usize = 0;
    while i < metas.len()
        invariant
            i <= metas@.len(),
            view == metas.deep_view(),
            view.len() == metas@.len(),
            meta_at(view, id@, 0) == meta_at(view, id@, i as int),
        decreases metas@.len() - i,
    {
        assert(view[i as int] == metas@[i as int].deep_view());
        if text::same(metas[i].id.as_str(), id) {
            return Some(i);
        }
        i += 1;
    }
    None
}

/// The sessions after one was renamed; a blank title renames nothing.
pub open spec fn renamed(metas: Seq<MetaView>, id: Seq<char>, title: Seq<char>) -> Seq<MetaView> {
    match meta_at(metas, id, 0) {
        Some(i) => if text::trimmed(title).len() > 0 {
            metas.update(i, MetaView { title: text::trimmed(title), ..metas[i] })
        } else {
            metas
        },
        None => metas,
    }
}

/// The folder and the title to log for a session that was renamed: none where
/// the title is blank or the folder is not known.
pub open spec fn rename_record(metas: Seq<MetaView>, id: Seq<char>, title: Seq<char>) -> Option<
    (Seq<char>, Seq<char>),
> {
    match meta_at(metas, id, 0) {
        Some(i) => match metas[i].cwd {
            Some(cwd) => if text::trimmed(title).len() > 0 {
                Some((cwd, text::trimmed(title)))
            } else {
                None
            },
            None => None,
        },
        None => None,
    }
}

/// Renames a session. Returns the folder and the title to log.
pub fn rename_session(metas: &mut Vec<SessionMeta>, id: &str, title: &str) -> (r: Option<
    (String, String),
>)
    ensures
        final(metas).deep_view() == renamed(old(metas).deep_view(), id@, title@),
        r.deep_view() == rename_record(old(metas).deep_view(), id@, title@),
{
    let ghost before = metas.deep_view();
    let name = text::trim(title);
    if text::char_count(name.as_str()) == 0 {
        return None;
    }
    match find_meta(metas, id) {
        Some(i) => {
            assert(before[i as int] == metas@[i as int].deep_view());
            let cwd = match &metas[i].cwd {
                Some(c) => Some(c.clone()),
                None => None,
            };
            metas[i].title = name.clone();
            assert(metas.deep_view() =~= before.update(
                i as int,
                MetaView { title: name@, ..before[i as int] },
            ));
            match cwd {
                Some(c) => Some((c, name)),
                None => None,
            }
        },
        None => None,
    }
}

/// The folder and the title of a session that is forked: none while a turn
/// runs, or where the session or its folder is not known.
pub open spec fn fork_source(metas: Seq<MetaView>, id: Seq<char>, busy: bool) -> Option<
    (Seq<char>, Seq<char>),
> {
    if busy {
        None
    } else {
        match meta_at(metas, id, 0) {
            Some(i) => match metas[i].cwd {
                Some(cwd) => Some((cwd, metas[i].title)),
                None => None,
            },
            None => None,
        }
    }
}

/// The folder and the title of a session that is forked.
pub fn fork_session(metas: &Vec<SessionMeta>, id: &str, busy: bool) -> (r: Option<(String, String)>)
    ensures
        r.deep_view() == fork_source(metas.deep_view(), id@, busy),
{
    if busy {
        return None;
    }
    match find_meta(metas, id) {
        Some(i) => {
            assert(metas.deep_view()[i as int] == metas@[i as int].deep_view());
            match &metas[i].cwd {
                Some(c) => Some((c.clone(), metas[i].title.clone())),
                None => None,
            }
        },
        None => None,
    }
}

/// The entry of a forked session.
pub fn forked_meta(id: String, title: String, cwd: String, blank: bool) -> (r: SessionMeta)
    ensures
        r.deep_view() == (MetaView {
            id: id@,
            title: title@,
            time_label: "刚刚"@,
            cwd: Some(cwd@),
            blank,
        }),
{
    SessionMeta { id, title, time_label: "刚刚".to_string(), cwd: Some(cwd), blank }
}

/// Whether a session can be archived: not the one that runs.
pub fn may_archive(busy: bool, current: &str, id: &str) -> (r: bool)
    ensures
        r == !(busy && current@ == id@),
{
    !(busy && text::same(current, id))
}

/// The last place at which `t` stands among the first `n`.
pub open spec fn last_place(s: Seq<char>, t: Seq<char>, n: int) -> Option<int>
    decreases n,
{
    if n <= 0 {
        None
    } else if text::stands_at(s, t, n - 1) {
        Some(n - 1)
    } else {
        last_place(s, t, n - 1)
    }
}

/// The text before a number in brackets, and the number.
pub open spec fn numbered(s: Seq<char>, open: Seq<char>, close: Seq<char>) -> Option<
    (Seq<char>, u64),
> {
    match last_place(s, open, s.len() as int + 1) {
        Some(i) => {
            let inner = s.skip(i + open.len());
            if text::finishes(inner, close) {
                match text::as_u64(inner.take(inner.len() - close.len())) {
                    Some(n) => Some((s.take(i), n)),
                    None => None,
                }
            } else {
                None
            }
        },
        None => None,
    }
}

/// The title of a fork: the number at its end goes up by one, and a title
/// without one gets a 1.
pub open spec fn fork_title(title: Seq<char>) -> Seq<char> {
    match numbered(title, " ("@, ")"@) {
        Some((head, n)) => head + " ("@ + text::dec(n as nat + 1) + ")"@,
        None => match numbered(title, "（"@, "）"@) {
            Some((head, n)) => head + "（"@ + text::dec(n as nat + 1) + "）"@,
            None => title + " (1)"@,
        },
    }
}

/// Whether the number at the end of a title can go up.
pub open spec fn can_go_up(title: Seq<char>) -> bool {
    &&& numbered(title, " ("@, ")"@) matches Some((_, n)) ==> n < u64::MAX
    &&& numbered(title, "（"@, "）"@) matches Some((_, n)) ==> n < u64::MAX
}

fn find_number(title: &str, open: &str, close: &str) -> (r: Option<(String, u64)>)
    ensures
        (match r {
            Some((head, n)) => Some((head@, n)),
            None => None,
        }) == numbered(title@, open@, close@),
{
    let s: Vec<char> = text::chars_of(title);
    let o: Vec<char> = text::chars_of(open);
    let len: usize = s.len();
    let mut n: usize = len;
    let mut more = true;
    // Places from the end of the title down to its start.
    while more
        invariant
            s@ == title@,
            o@ == open@,
            len == s@.len(),
            n <= len,
            more ==> last_place(s@, o@, len + 1) == last_place(s@, o@, n + 1),
            !more ==> last_place(s@, o@, len + 1) is None,
        decreases n, (if more {
            1int
        } else {
            0int
        }),
    {
        if text::matches_at(&s, &o, n) {
            let from: usize = n + o.len();
            let inner = text::text_between(s.as_slice(), from, len);
            assert(inner@ =~= s@.skip(n + o@.len()));
            let head = text::text_between(s.as_slice(), 0, n);
            assert(head@ =~= s@.take(n as int));
            if !text::ends_with(inner.as_str(), close) {
                return None;
            }
            let c: usize = text::char_count(close);
            let m: usize = text::char_count(inner.as_str());
            let number = text::text_between(s.as_slice(), from, len - c);
            assert(number@ =~= inner@.take(m - c));
            return match text::parse_u64(number.as_str()) {
                Some(k) => Some((head, k)),
                None => None,
            };
        }
        if n == 0 {
            assert(last_place(s@, o@, 0) is None);
            more = false;
        } else {
            n -= 1;
        }
    }
    None
}

/// Whether the number at the end of a title can go up.
pub fn can_increase(title: &str) -> (r: bool)
    ensures
        r == can_go_up(title@),
{
    let narrow: bool = match find_number(title, " (", ")") {
        Some((_, n)) => n < u64::MAX,
        None => true,
    };
    let wide: bool = match find_number(title, "（", "）") {
        Some((_, n)) => n < u64::MAX,
        None => true,
    };
    narrow && wide
}

/// The title of a fork.
pub fn increased_fork_title(title: &str) -> (r: String)
    requires
        can_go_up(title@),
    ensures
        r@ == fork_title(title@),
{
    if let Some((head, n)) = find_number(title, " (", ")") {
        let mut r = text::concat2(head.as_str(), " (");
        let k = text::decimal(n + 1);
        text::push_text(&mut r, k.as_str());
        text::push_text(&mut r, ")");
        return r;
    }
    if let Some((head, n)) = find_number(title, "（", "）") {
        let mut r = text::concat2(head.as_str(), "（");
        let k = text::decimal(n + 1);
        text::push_text(&mut r, k.as_str());
        text::push_text(&mut r, "）");
        return r;
    }
    text::concat2(title, " (1)")
}

// ---------------------------------------------------------------------------
// laws
// ---------------------------------------------------------------------------

proof fn lemma_without_id(ids: Seq<Seq<char>>, id: Seq<char>)
    ensures
        !without_id(ids, id).contains(id),
        forall|x: Seq<char>|
            x != id ==> (#[trigger] without_id(ids, id).contains(x) <==> ids.contains(x)),
    decreases ids.len(),
{
    let rest = without_id(ids, id);
    if ids.len() > 0 {
        let head = ids.drop_last();
        lemma_without_id(head, id);
        let kept = without_id(head, id);
        assert forall|x: Seq<char>| x != id implies (#[trigger] rest.contains(x) <==> ids.contains(
            x,
        )) by {
            if ids.contains(x) {
                let i = choose|i: int| 0 <= i < ids.len() && ids[i] == x;
                if i < head.len() {
                    assert(head[i] == x);
                    assert(kept.contains(x));
                    let k = choose|k: int| 0 <= k < kept.len() && kept[k] == x;
                    assert(rest[k] == x);
                } else {
                    assert(rest[rest.len() - 1] == x);
                }
            }
            if rest.contains(x) {
                let k = choose|k: int| 0 <= k < rest.len() && rest[k] == x;
                if k < kept.len() {
                    assert(kept[k] == x);
                    assert(kept.contains(x));
                    let i = choose|i: int| 0 <= i < head.len() && head[i] == x;
                    assert(ids[i] == x);
                } else {
                    assert(ids[ids.len() - 1] == x);
                }
            }
        }
        if rest.contains(id) {
            let k = choose|k: int| 0 <= k < rest.len() && rest[k] == id;
            if k < kept.len() {
                assert(kept[k] == id);
            }
        }
    }
}

proof fn lemma_at_id(list: Seq<WorkspaceView>, id: Seq<char>, from: int)
    requires
        0 <= from,
    ensures
        at_id(list, id, from) matches Some(i) ==> from <= i < list.len() && list[i].id == id,
    decreases list.len() - from,
{
    if from < list.len() && list[from].id != id {
        lemma_at_id(list, id, from + 1);
    }
}

/// A session belongs to one workspace at most after it was assigned, and to
/// the one that it was assigned to; other sessions stay where they were.
pub proof fn session_belongs_to_one_workspace(
    list: Seq<WorkspaceView>,
    session: Seq<char>,
    workspace: Option<Seq<char>>,
)
    ensures
        ({
            let after = assigned(list, session, workspace);
            &&& after.len() == list.len()
            &&& forall|i: int|
                0 <= i < list.len() ==> ((#[trigger] after[i]).session_ids.contains(session) <==> (
                workspace matches Some(id) && at_id(list, id, 0) == Some(i)))
            &&& forall|i: int, other: Seq<char>|
                0 <= i < list.len() && other != session ==> (#[trigger] after[i].session_ids.contains(
                    other,
                ) <==> list[i].session_ids.contains(other))
        }),
{
    let out = taken_out(list, session);
    let after = assigned(list, session, workspace);
    assert forall|i: int| 0 <= i < list.len() implies !(#[trigger] out[i]).session_ids.contains(
        session,
    ) && (forall|other: Seq<char>|
        other != session ==> (#[trigger] out[i].session_ids.contains(other)
            <==> list[i].session_ids.contains(other))) by {
        lemma_without_id(list[i].session_ids, session);
    }
    if let Some(id) = workspace {
        lemma_same_place(list, out, id, 0);
        lemma_at_id(out, id, 0);
        if let Some(k) = at_id(out, id, 0) {
            let rest = out[k].session_ids;
            let longer = seq![session] + rest;
            assert(longer[0] == session);
            assert(after[k].session_ids == longer);
            assert forall|other: Seq<char>| other != session implies (#[trigger] longer.contains(
                other,
            ) <==> rest.contains(other)) by {
                if rest.contains(other) {
                    let j = choose|j: int| 0 <= j < rest.len() && rest[j] == other;
                    assert(longer[j + 1] == other);
                }
                if longer.contains(other) {
                    let j = choose|j: int| 0 <= j < longer.len() && longer[j] == other;
                    assert(rest[j - 1] == other);
                }
            }
        }
    }
}

proof fn lemma_same_place(a: Seq<WorkspaceView>, b: Seq<WorkspaceView>, id: Seq<char>, from: int)
    requires
        0 <= from,
        a.len() == b.len(),
        forall|i: int| 0 <= i < a.len() ==> (#[trigger] a[i]).id == b[i].id,
    ensures
        at_id(a, id, from) == at_id(b, id, from),
    decreases a.len() - from,
{
    if from < a.len() {
        assert(a[from].id == b[from].id);
        lemma_same_place(a, b, id, from + 1);
    }
}

/// After a workspace was deleted none has its id, and every other one is still
/// there.
pub proof fn deleted_workspace_is_gone(list: Seq<WorkspaceView>, id: Seq<char>)
    ensures
        forall|i: int|
            0 <= i < without_workspace(list, id).len() ==> (#[trigger] without_workspace(
                list,
                id,
            )[i]).id != id,
        forall|i: int|
            0 <= i < list.len() && (#[trigger] list[i]).id != id ==> without_workspace(
                list,
                id,
            ).contains(list[i]),
    decreases list.len(),
{
    if list.len() > 0 {
        let head = list.drop_last();
        deleted_workspace_is_gone(head, id);
        let kept = without_workspace(head, id);
        let rest = without_workspace(list, id);
        assert forall|i: int| 0 <= i < rest.len() implies (#[trigger] rest[i]).id != id by {
            if i < kept.len() {
                assert(kept[i] == rest[i]);
            }
        }
        assert forall|i: int| 0 <= i < list.len() && (#[trigger] list[i]).id != id implies rest.contains(
            list[i],
        ) by {
            if i < head.len() {
                assert(head[i] == list[i]);
                let k = choose|k: int| 0 <= k < kept.len() && kept[k] == list[i];
                assert(rest[k] == list[i]);
            } else {
                assert(rest[rest.len() - 1] == list[i]);
            }
        }
    }
}

/// A fork of a numbered fork has the next number.
pub proof fn forks_count_up(title: Seq<char>, n: u64)
    ensures
        fork_title(title + " ("@ + text::dec(n as nat) + ")"@) == title + " ("@ + text::dec(
            n as nat + 1,
        ) + ")"@,
{
    let open = " ("@;
    let close = ")"@;
    let digits = text::dec(n as nat);
    let s = title + open + digits + close;
    reveal_strlit(" (");
    reveal_strlit(")");
    text::lemma_dec_reads(n as nat);
    text::numeral_is_read_back(n);
    assert(s.subrange(title.len() as int, title.len() as int + 2) =~= open);
    assert forall|i: int| title.len() < i <= s.len() implies !text::stands_at(s, open, i) by {
        if i + 2 <= s.len() {
            assert(s.subrange(i, i + 2)[0] == s[i]);
            assert(s[i] != ' ') by {
                if i == title.len() + 1 {
                    assert(s[i] == open[1]);
                } else if i < title.len() + 2 + digits.len() {
                    assert(s[i] == digits[i - title.len() - 2]);
                    assert(text::is_digit(digits[i - title.len() - 2]));
                } else {
                    assert(s[i] == close[0]);
                }
            }
        }
    }
    lemma_last_place(s, open, title.len() as int, s.len() as int + 1);
    let inner = s.skip(title.len() as int + 2);
    assert(inner =~= digits + close);
    assert(inner.subrange(inner.len() - 1, inner.len() as int) =~= close);
    assert(inner.take(inner.len() - 1) =~= digits);
    assert(s.take(title.len() as int) =~= title);
}

proof fn lemma_last_place(s: Seq<char>, t: Seq<char>, at: int, n: int)
    requires
        0 <= at < n,
        text::stands_at(s, t, at),
        forall|i: int| at < i < n ==> !text::stands_at(s, t, i),
    ensures
        last_place(s, t, n) == Some(at),
    decreases n,
{
    if at < n - 1 {
        lemma_last_place(s, t, at, n - 1);
    }
}

/// A session is found by its id: the first that has it from a place on, and
/// none where none has it.
pub proof fn session_is_found_by_its_id(metas: Seq<MetaView>, id: Seq<char>, from: int)
    requires
        0 <= from <= metas.len(),
    ensures
        match meta_at(metas, id, from) {
            Some(i) => from <= i < metas.len() && metas[i].id == id && forall|j: int|
                from <= j < i ==> (#[trigger] metas[j]).id != id,
            None => forall|j: int| from <= j < metas.len() ==> (#[trigger] metas[j]).id != id,
        },
    decreases metas.len() - from,
{
    if from < metas.len() && metas[from].id != id {
        session_is_found_by_its_id(metas, id, from + 1);
    }
}

/// A workspace is found by its id and by the sessions that it holds: the first
/// that fits, and none where none does.
pub proof fn workspace_is_found(
    list: Seq<WorkspaceView>,
    id: Seq<char>,
    session: Seq<char>,
    from: int,
)
    requires
        0 <= from <= list.len(),
    ensures
        match at_id(list, id, from) {
            Some(i) => from <= i < list.len() && list[i].id == id && forall|j: int|
                from <= j < i ==> (#[trigger] list[j]).id != id,
            None => forall|j: int| from <= j < list.len() ==> (#[trigger] list[j]).id != id,
        },
        match holder(list, session, from) {
            Some(i) => from <= i < list.len() && list[i].session_ids.contains(session) && forall|
                j: int,
            |
                from <= j < i ==> !(#[trigger] list[j]).session_ids.contains(session),
            None => forall|j: int|
                from <= j < list.len() ==> !(#[trigger] list[j]).session_ids.contains(session),
        },
    decreases list.len() - from,
{
    if from < list.len() {
        workspace_is_found(list, id, session, from + 1);
    }
}

/// A session is renamed and nothing else: it has the new title without blanks
/// around it, and the log is given the same title in the folder of the session;
/// a blank title renames nothing.
pub proof fn rename_changes_one_title(
    metas: Seq<MetaView>,
    id: Seq<char>,
    title: Seq<char>,
    i: int,
)
    requires
        0 <= i < metas.len(),
    ensures
        ({
            let after = renamed(metas, id, title);
            let record = rename_record(metas, id, title);
            &&& after.len() == metas.len()
            &&& after[i] == MetaView { title: after[i].title, ..metas[i] }
            &&& metas[i].id != id ==> after[i] == metas[i]
            &&& text::trimmed(title).len() == 0 ==> after == metas && record is None
            &&& metas[i].id == id && text::trimmed(title).len() > 0 && (forall|j: int|
                0 <= j < i ==> (#[trigger] metas[j]).id != id) ==> after[i].title == text::trimmed(
                title,
            ) && (record is Some <==> metas[i].cwd is Some) && (record matches Some(r) ==> Some(r.0)
                == metas[i].cwd && r.1 == after[i].title)
        }),
{
    session_is_found_by_its_id(metas, id, 0);
}

/// A fork starts from the folder and the title of its session, and not while a
/// turn runs.
pub proof fn fork_starts_from_its_session(
    metas: Seq<MetaView>,
    id: Seq<char>,
    busy: bool,
    i: int,
)
    requires
        0 <= i < metas.len(),
        metas[i].id == id,
        forall|j: int| 0 <= j < i ==> (#[trigger] metas[j]).id != id,
    ensures
        busy ==> fork_source(metas, id, busy) is None,
        fork_source(metas, id, busy) is Some <==> !busy && metas[i].cwd is Some,
        fork_source(metas, id, busy) matches Some(r) ==> Some(r.0) == metas[i].cwd && r.1
            == metas[i].title,
{
    session_is_found_by_its_id(metas, id, 0);
}

/// Assigning a session moves it and nothing else: the workspaces keep their
/// ids, titles and folders, and the session comes first where it now belongs.
pub proof fn assigning_keeps_the_workspaces(
    list: Seq<WorkspaceView>,
    session: Seq<char>,
    workspace: Option<Seq<char>>,
    i: int,
)
    requires
        0 <= i < list.len(),
    ensures
        ({
            let after = assigned(list, session, workspace);
            &&& after[i].id == list[i].id
            &&& after[i].title == list[i].title
            &&& after[i].path == list[i].path
            &&& workspace == Some(list[i].id) && (forall|j: int|
                0 <= j < i ==> (#[trigger] list[j]).id != list[i].id) ==> after[i].session_ids.len()
                > 0 && after[i].session_ids[0] == session
        }),
{
    let out = taken_out(list, session);
    assert(out[i].id == list[i].id);
    if let Some(id) = workspace {
        workspace_is_found(out, id, session, 0);
        if id == list[i].id && (forall|j: int|
            0 <= j < i ==> (#[trigger] list[j]).id != list[i].id) {
            assert forall|j: int| 0 <= j < i implies (#[trigger] out[j]).id != id by {
                assert(out[j].id == list[j].id);
                assert(list[j].id != list[i].id);
            }
            assert(at_id(out, id, 0) == Some(i));
        }
    }
}

/// Renaming a workspace changes its title and nothing else.
pub proof fn retitling_changes_one_title(
    list: Seq<WorkspaceView>,
    id: Seq<char>,
    title: Seq<char>,
    i: int,
)
    requires
        0 <= i < list.len(),
    ensures
        ({
            let after = retitled(list, id, title);
            &&& after.len() == list.len()
            &&& after[i] == WorkspaceView { title: after[i].title, ..list[i] }
            &&& list[i].id != id ==> after[i] == list[i]
            &&& list[i].id == id && (forall|j: int|
                0 <= j < i ==> (#[trigger] list[j]).id != id) ==> after[i].title == title
        }),
{
    workspace_is_found(list, id, id, 0);
}

/// A deleted session is gone from the list, and every other stays in its place
/// among them.
pub proof fn forgotten_session_is_gone(metas: Seq<MetaView>, id: Seq<char>)
    ensures
        metas_without(metas, id) == metas.filter(|m: MetaView| m.id != id),
    decreases metas.len(),
{
    reveal(Seq::filter);
    if metas.len() > 0 {
        forgotten_session_is_gone(metas.drop_last(), id);
    }
}

/// The sessions that may be taken up are the others in the folder that are not
/// archived, in the order of the list.
pub proof fn sessions_to_take_up(
    metas: Seq<MetaView>,
    session: Seq<char>,
    archived: Seq<Seq<char>>,
    cwd: Seq<char>,
    n: int,
    i: int,
)
    requires
        0 <= i < n <= metas.len(),
    ensures
        metas[i].id != session && !archived.contains(metas[i].id) && metas[i].cwd == Some(cwd)
            ==> to_look_at(metas, session, archived, cwd, n).contains(metas[i].id),
        to_look_at(metas, session, archived, cwd, n).contains(session) ==> false,
        forall|k: int|
            0 <= k < to_look_at(metas, session, archived, cwd, n).len() ==> !archived.contains(
                #[trigger] to_look_at(metas, session, archived, cwd, n)[k],
            ) && to_look_at(metas, session, archived, cwd, n)[k] != session,
    decreases n,
{
    let head = to_look_at(metas, session, archived, cwd, n - 1);
    let all = to_look_at(metas, session, archived, cwd, n);
    if n > 1 {
        sessions_to_take_up(
            metas,
            session,
            archived,
            cwd,
            n - 1,
            if i < n - 1 {
                i
            } else {
                0
            },
        );
    }
    assert forall|k: int| 0 <= k < all.len() implies !archived.contains(#[trigger] all[k]) && all[k]
        != session by {
        if k < head.len() {
            assert(all[k] == head[k]);
        }
    }
    if may_reuse(metas[i], session, archived, cwd) {
        if i < n - 1 {
            let k = choose|k: int| 0 <= k < head.len() && head[k] == metas[i].id;
            assert(all[k] == head[k]);
        } else {
            assert(all[all.len() - 1] == metas[i].id);
        }
    }
}

/// A new session starts in the workspace that is chosen; without a choice in
/// the one that holds the session at hand; and in the folder of that workspace.
/// Nothing starts while a turn runs.
pub proof fn new_session_starts_in_its_workspace(
    w: WorkspacesView,
    session: Seq<char>,
    metas: Seq<MetaView>,
    i: int,
)
    requires
        0 <= i < w.list.len(),
        forall|j: int| 0 <= j < i ==> (#[trigger] w.list[j]).id != w.list[i].id,
    ensures
        start_of(w, true, session, metas) is Busy,
        w.current == Some(w.list[i].id) ==> start_of(w, false, session, metas) == (StartView::In {
            workspace: w.list[i].id,
            cwd: w.list[i].path,
        }),
        w.current is None && w.list[i].session_ids.contains(session) && (forall|j: int|
            0 <= j < i ==> !(#[trigger] w.list[j]).session_ids.contains(session)) ==> start_of(
            w,
            false,
            session,
            metas,
        ) == (StartView::In { workspace: w.list[i].id, cwd: w.list[i].path }),
        w.current is None && i == 0 && metas.len() == 0 && (forall|j: int|
            0 <= j < w.list.len() ==> !(#[trigger] w.list[j]).session_ids.contains(session))
            ==> start_of(w, false, session, metas) == (StartView::In {
            workspace: w.list[0].id,
            cwd: w.list[0].path,
        }),
{
    workspace_is_found(w.list, w.list[i].id, session, 0);
}

/// Without a workspace a session is a draft.
pub proof fn no_workspace_makes_a_draft(w: WorkspacesView, session: Seq<char>, metas: Seq<MetaView>)
    requires
        w.list.len() == 0,
    ensures
        start_of(w, false, session, metas) is Draft,
    decreases metas.len(),
{
    lemma_no_holder(w.list, metas, 0);
}

proof fn lemma_no_holder(list: Seq<WorkspaceView>, metas: Seq<MetaView>, from: int)
    requires
        list.len() == 0,
        0 <= from,
    ensures
        recent_holder(list, metas, from) is None,
    decreases metas.len() - from,
{
    if from < metas.len() {
        lemma_no_holder(list, metas, from + 1);
    }
}

/// A blank session at hand is taken up again only in its own folder.
pub proof fn blank_session_is_reused_in_its_folder(
    metas: Seq<MetaView>,
    session: Seq<char>,
    cwd: Seq<char>,
    i: int,
)
    requires
        0 <= i < metas.len(),
    ensures
        !reuses_current(metas, session, false, cwd),
        metas[i].id == session && metas[i].cwd == Some(cwd) ==> reuses_current(
            metas,
            session,
            true,
            cwd,
        ),
        (forall|j: int|
            0 <= j < metas.len() ==> (#[trigger] metas[j]).id != session || metas[j].cwd != Some(
                cwd,
            )) ==> !reuses_current(metas, session, true, cwd),
{
}

/// A folder goes by its name, and by its path where it has none.
pub proof fn folder_goes_by_its_name(path: Seq<char>, name: Seq<char>)
    ensures
        name.len() > 0 ==> folder_title(path, Some(name)) == name,
        folder_title(path, Some(Seq::empty())) == path,
        folder_title(path, None) == path,
{
}

/// A new session is listed under its id and in its folder, blank and without a
/// title of its own.
pub proof fn new_session_is_blank(id: Seq<char>, cwd: Seq<char>)
    ensures
        new_meta(id, cwd).id == id,
        new_meta(id, cwd).cwd == Some(cwd),
        new_meta(id, cwd).blank,
        new_meta(id, cwd).title == crate::composer::untitled(),
{
}

/// A title without a number at its end gets one behind it.
pub proof fn first_fork_is_numbered_one(title: Seq<char>)
    requires
        numbered(title, " ("@, ")"@) is None,
        numbered(title, "（"@, "）"@) is None,
    ensures
        text::begins(fork_title(title), title),
        fork_title(title).skip(title.len() as int) == " (1)"@,
{
    assert(fork_title(title).take(title.len() as int) =~= title);
    assert(fork_title(title).skip(title.len() as int) =~= " (1)"@);
}

/// Taking an id out of a list leaves exactly the others.
pub proof fn taking_out_keeps_the_others(ids: Seq<Seq<char>>, id: Seq<char>, other: Seq<char>)
    ensures
        without_id(ids, id).contains(other) <==> ids.contains(other) && other != id,
    decreases ids.len(),
{
    if ids.len() > 0 {
        let head = ids.drop_last();
        let rest = without_id(head, id);
        let all = without_id(ids, id);
        taking_out_keeps_the_others(head, id, other);
        if ids.contains(other) && other != id {
            let k = choose|k: int| 0 <= k < ids.len() && ids[k] == other;
            if k < head.len() {
                assert(head[k] == other);
                let m = choose|m: int| 0 <= m < rest.len() && rest[m] == other;
                assert(all[m] == other);
            } else {
                assert(all[all.len() - 1] == other);
            }
        }
        if all.contains(other) {
            let m = choose|m: int| 0 <= m < all.len() && all[m] == other;
            if m < rest.len() {
                assert(rest[m] == other);
                let k = choose|k: int| 0 <= k < head.len() && head[k] == other;
                assert(ids[k] == other);
            } else {
                assert(ids[ids.len() - 1] == other);
            }
        }
    }
}

} // verus!
