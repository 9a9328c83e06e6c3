//! The dock at the side: its tabs, the file tree and the previews of files.

use crate::files::{DirEntry, DirEntryKind, DirLevel, FilesErrorKind, PreviewErrorKind, TextPage};
use crate::files;
use crate::filetype;
use crate::roster;
use crate::text;
use vstd::prelude::*;

verus! {

// ---------------------------------------------------------------------------
// previews
// ---------------------------------------------------------------------------

/// The preview of a file.
pub struct FilePreview {
    pub path: String,
    /// The lines that were read.
    pub lines: Vec<String>,
    /// The line that the next page starts at: the number of lines that were
    /// read.
    pub loaded_through: usize,
    /// Whether the end of the file was read.
    pub eof: bool,
    pub wrap: bool,
    pub failure: Option<PreviewErrorKind>,
}

/// The contents of a preview.
pub struct PreviewView {
    pub path: Seq<char>,
    pub lines: Seq<Seq<char>>,
    pub loaded_through: nat,
    pub eof: bool,
    pub wrap: bool,
    pub failure: Option<PreviewErrorKind>,
}

impl DeepView for FilePreview {
    type V = PreviewView;

    open spec fn deep_view(&self) -> PreviewView {
        PreviewView {
            path: self.path@,
            lines: self.lines.deep_view(),
            loaded_through: self.loaded_through as nat,
            eof: self.eof,
            wrap: self.wrap,
            failure: self.failure,
        }
    }
}

/// Whether a preview counts the lines that were read.
pub open spec fn counts_loaded(p: PreviewView) -> bool {
    p.loaded_through == p.lines.len()
}

/// A preview of which nothing was read.
pub open spec fn fresh_preview(path: Seq<char>) -> PreviewView {
    PreviewView {
        path,
        lines: Seq::empty(),
        loaded_through: 0,
        eof: false,
        wrap: false,
        failure: None,
    }
}

/// A preview after a page, or the failure to read one, came in. A page without
/// lines adds none.
pub open spec fn with_page(p: PreviewView, page: Result<TextPage, PreviewErrorKind>) -> PreviewView {
    match page {
        Ok(page) => PreviewView {
            lines: if page.lines == 0 {
                p.lines
            } else {
                p.lines + files::lines_of(page.text@)
            },
            loaded_through: p.loaded_through + page.lines as nat,
            eof: page.eof,
            failure: None,
            ..p
        },
        Err(e) => PreviewView { failure: Some(e), ..p },
    }
}

/// What stands below the lines of a preview.
pub open spec fn more_text(p: PreviewView) -> Option<Seq<char>> {
    if !p.eof && p.lines.len() > 0 {
        Some("加载更多（已载 "@ + text::dec(p.loaded_through) + " 行）"@)
    } else {
        None
    }
}

/// What stands in place of the lines where there are none.
pub open spec fn placeholder_text(p: PreviewView) -> Option<Seq<char>> {
    if p.lines.len() > 0 {
        None
    } else {
        match p.failure {
            Some(e) => Some(files::preview_failure_text(e)),
            None => Some("正在读取…"@),
        }
    }
}

impl FilePreview {
    /// A preview of which nothing was read.
    pub fn new(path: String) -> (r: Self)
        ensures
            r.deep_view() == fresh_preview(path@),
            counts_loaded(r.deep_view()),
    {
        let lines: Vec<String> = Vec::new();
        assert(lines.deep_view() =~= Seq::empty());
        FilePreview { path, lines, loaded_through: 0, eof: false, wrap: false, failure: None }
    }

    /// Takes a page, or the failure to read one, in.
    pub fn accept(&mut self, page: Result<TextPage, PreviewErrorKind>)
        requires
            counts_loaded(old(self).deep_view()),
            page matches Ok(page) ==> files::counts_lines(page),
        ensures
            final(self).deep_view() == with_page(old(self).deep_view(), page),
            counts_loaded(final(self).deep_view()),
    {
        match page {
            Ok(page) => {
                let ghost start = self.lines.deep_view();
                if page.lines > 0 {
                    let more: Vec<String> = text::split(page.text.as_str(), '\n');
                    let ghost pieces = more.deep_view();
                    let ghost raw = more@;
                    assert(start + pieces.take(0) =~= start);
                    for line in it: more
                        invariant
                            it.seq() == raw,
                            pieces.len() == raw.len(),
                            forall|i: int| 0 <= i < raw.len() ==> pieces[i] == #[trigger] raw[i]@,
                            self.lines.deep_view() == start + pieces.take(it.index() as int),
                            self.path == old(self).path,
                            self.wrap == old(self).wrap,
                    {
                        let ghost before = self.lines.deep_view();
                        self.lines.push(line);
                        assert(self.lines.deep_view() =~= before.push(line@));
                        assert(self.lines.deep_view() =~= start + pieces.take(it.index() + 1));
                    }
                    assert(pieces.take(pieces.len() as int) =~= pieces);
                }
                self.loaded_through = self.lines.len();
                assert(self.lines.deep_view().len() == self.loaded_through);
                self.eof = page.eof;
                self.failure = None;
            },
            Err(e) => {
                self.failure = Some(e);
            },
        }
    }

    /// Forgets what was read, to read it again.
    pub fn restart(&mut self)
        ensures
            final(self).deep_view() == (PreviewView {
                wrap: old(self).wrap,
                ..fresh_preview(old(self).path@)
            }),
            counts_loaded(final(self).deep_view()),
    {
        self.lines = Vec::new();
        assert(self.lines.deep_view() =~= Seq::empty());
        self.loaded_through = 0;
        self.eof = false;
        self.failure = None;
    }

    /// Notes that there is no folder to read from.
    pub fn no_workspace(&mut self)
        ensures
            ({
                let after = final(self).deep_view();
                let before = old(self).deep_view();
                &&& after.failure matches Some(PreviewErrorKind::Unavailable(s)) && s@
                    == "会话没有工作区目录。"@
                &&& after == (PreviewView { failure: after.failure, ..before })
            }),
    {
        self.failure = Some(PreviewErrorKind::Unavailable("会话没有工作区目录。".to_string()));
    }

    /// What stands below the lines.
    pub fn more_line(&self) -> (r: Option<String>)
        ensures
            r.deep_view() == more_text(self.deep_view()),
    {
        assert(self.lines.deep_view().len() == self.lines@.len());
        if !self.eof && self.lines.len() > 0 {
            let n = text::decimal(self.loaded_through as u64);
            Some(text::concat3("加载更多（已载 ", n.as_str(), " 行）"))
        } else {
            None
        }
    }

    /// What stands in place of the lines where there are none.
    pub fn placeholder(&self) -> (r: Option<String>)
        ensures
            r.deep_view() == placeholder_text(self.deep_view()),
    {
        assert(self.lines.deep_view().len() == self.lines@.len());
        if self.lines.len() > 0 {
            return None;
        }
        match &self.failure {
            Some(e) => Some(files::preview_failure_line(e)),
            None => Some("正在读取…".to_string()),
        }
    }
}

/// The folder and the name of a path: a path that ends with a separator, or has
/// none, is all name.
pub open spec fn path_parts(path: Seq<char>) -> (Seq<char>, Seq<char>) {
    match filetype::last_index(path, seq!['/', '\\']) {
        Some(i) => if i + 1 < path.len() {
            (path.take(i), path.skip(i + 1))
        } else {
            (Seq::empty(), path)
        },
        None => (Seq::empty(), path),
    }
}

/// The folder and the name of a path.
pub fn split_path(path: &str) -> (r: (String, String))
    ensures
        r.0@ == path_parts(path@).0,
        r.1@ == path_parts(path@).1,
{
    let v: Vec<char> = text::chars_of(path);
    let set: [char; 2] = ['/', '\\'];
    assert(set@ =~= seq!['/', '\\']);
    match filetype::find_last(&v, &set) {
        Some(i) => if v.len() - i > 1 {
            let dir = text::text_between(v.as_slice(), 0, i);
            let name = text::text_between(v.as_slice(), i + 1, v.len());
            assert(dir@ =~= path@.take(i as int));
            assert(name@ =~= path@.skip(i + 1));
            (dir, name)
        } else {
            (String::new(), path.to_string())
        },
        None => (String::new(), path.to_string()),
    }
}

// ---------------------------------------------------------------------------
// tabs
// ---------------------------------------------------------------------------

/// A tab of the dock.
#[derive(Clone, Copy, Debug, PartialEq, Eq, Structural)]
pub enum DockTab {
    /// The file tree.
    Files,
    /// A preview, by its place.
    File(usize),
}

/// A directory as it was listed, or why it could not be.
pub type Level = Result<DirLevel, (FilesErrorKind, String)>;

/// The dock.
pub struct DockState {
    pub open: bool,
    pub tabs: Vec<DockTab>,
    pub active: usize,
    pub files: Vec<FilePreview>,
    /// The folder that the tree shows.
    pub root: Option<String>,
    /// The directories that were listed.
    pub levels: Vec<(String, Level)>,
    /// The directories that are unfolded.
    pub expanded: Vec<String>,
}

/// The contents of the dock.
pub struct DockView {
    pub open: bool,
    pub tabs: Seq<DockTab>,
    pub active: nat,
    pub files: Seq<PreviewView>,
    pub root: Option<Seq<char>>,
    pub levels: Seq<(Seq<char>, Level)>,
    pub expanded: Seq<Seq<char>>,
}

/// The listed directories by their paths.
pub open spec fn levels_view(v: Seq<(String, Level)>) -> Seq<(Seq<char>, Level)> {
    v.map_values(|l: (String, Level)| (l.0@, l.1))
}

impl DeepView for DockState {
    type V = DockView;

    open spec fn deep_view(&self) -> DockView {
        DockView {
            open: self.open,
            tabs: self.tabs@,
            active: self.active as nat,
            files: self.files.deep_view(),
            root: self.root.deep_view(),
            levels: levels_view(self.levels@),
            expanded: self.expanded.deep_view(),
        }
    }
}

/// Whether a tab is among others.
pub open spec fn has_tab(tabs: Seq<DockTab>, tab: DockTab) -> bool {
    exists|i: int| 0 <= i < tabs.len() && #[trigger] tabs[i] == tab
}

/// Whether the tabs and the previews belong together: every preview has one
/// tab, the tree has one at most, a tab is active where there are any, and
/// every preview counts its lines.
pub open spec fn well_formed(d: DockView) -> bool {
    &&& forall|j: int| 0 <= j < d.files.len() ==> counts_loaded(#[trigger] d.files[j])
    &&& forall|i: int|
        0 <= i < d.tabs.len() ==> ((#[trigger] d.tabs[i]) matches DockTab::File(j) ==> j
            < d.files.len())
    &&& forall|i: int, j: int| 0 <= i < j < d.tabs.len() ==> d.tabs[i] != d.tabs[j]
    &&& forall|j: int|
        0 <= j < d.files.len() ==> #[trigger] has_tab(d.tabs, DockTab::File(j as usize))
    &&& d.files.len() <= usize::MAX
    &&& d.tabs.len() > 0 ==> d.active < d.tabs.len()
}

/// The place of the tree among the tabs from `from` on.
pub open spec fn tree_tab(tabs: Seq<DockTab>, from: int) -> Option<int>
    decreases tabs.len() - from,
{
    if from < 0 || from >= tabs.len() {
        None
    } else if tabs[from] == DockTab::Files {
        Some(from)
    } else {
        tree_tab(tabs, from + 1)
    }
}

/// The place of the tab of a file from `from` on.
pub open spec fn file_tab(d: DockView, path: Seq<char>, from: int) -> Option<int>
    decreases d.tabs.len() - from,
{
    if from < 0 || from >= d.tabs.len() {
        None
    } else {
        match d.tabs[from] {
            DockTab::File(j) => if j < d.files.len() && d.files[j as int].path == path {
                Some(from)
            } else {
                file_tab(d, path, from + 1)
            },
            DockTab::Files => file_tab(d, path, from + 1),
        }
    }
}

/// The place of a directory among those that were listed.
pub open spec fn level_at(levels: Seq<(Seq<char>, Level)>, path: Seq<char>, from: int) -> Option<int>
    decreases levels.len() - from,
{
    if from < 0 || from >= levels.len() {
        None
    } else if levels[from].0 == path {
        Some(from)
    } else {
        level_at(levels, path, from + 1)
    }
}

/// The root, where it has yet to be listed.
pub open spec fn root_to_list(d: DockView) -> Option<Seq<char>> {
    match d.root {
        Some(root) => if level_at(d.levels, root, 0) is None {
            Some(root)
        } else {
            None
        },
        None => None,
    }
}

/// The dock with another root; a tree of another root is forgotten.
pub open spec fn rooted(d: DockView, root: Option<Seq<char>>) -> DockView {
    if d.root == root {
        d
    } else {
        DockView { root, levels: Seq::empty(), expanded: Seq::empty(), ..d }
    }
}

/// The dock after it was opened or closed. Opened, it has the tree among its
/// tabs and shows the root.
pub open spec fn open_toggled(d: DockView, root: Option<Seq<char>>) -> DockView {
    if d.open {
        DockView { open: false, ..d }
    } else {
        let tabs = if tree_tab(d.tabs, 0) is Some {
            d.tabs
        } else {
            d.tabs.push(DockTab::Files)
        };
        rooted(
            DockView {
                open: true,
                tabs,
                active: if d.active >= tabs.len() {
                    0
                } else {
                    d.active
                },
                ..d
            },
            root,
        )
    }
}

/// The tabs without that of a preview; those of later previews move up.
pub open spec fn tabs_without(tabs: Seq<DockTab>, fi: usize) -> Seq<DockTab>
    decreases tabs.len(),
{
    if tabs.len() == 0 {
        Seq::empty()
    } else {
        let head = tabs_without(tabs.drop_last(), fi);
        match tabs.last() {
            DockTab::Files => head.push(DockTab::Files),
            DockTab::File(j) => if j < fi {
                head.push(DockTab::File(j))
            } else if j > fi {
                head.push(DockTab::File((j - 1) as usize))
            } else {
                head
            },
        }
    }
}

/// The dock with other tabs: without any it closes, and the active one stays
/// among them.
pub open spec fn settled(d: DockView) -> DockView {
    if d.tabs.len() == 0 {
        DockView { open: false, active: 0, ..d }
    } else if d.active >= d.tabs.len() {
        DockView { active: (d.tabs.len() - 1) as nat, ..d }
    } else {
        d
    }
}

/// The dock after a tab was closed.
pub open spec fn tab_closed(d: DockView, i: int) -> DockView {
    if 0 <= i < d.tabs.len() {
        match d.tabs[i] {
            DockTab::File(fi) => settled(
                DockView {
                    files: d.files.remove(fi as int),
                    tabs: tabs_without(d.tabs, fi),
                    ..d
                },
            ),
            DockTab::Files => settled(DockView { tabs: d.tabs.remove(i), ..d }),
        }
    } else {
        d
    }
}

/// The dock with the tree as its active tab.
pub open spec fn tree_added(d: DockView) -> DockView {
    match tree_tab(d.tabs, 0) {
        Some(i) => DockView { active: i as nat, ..d },
        None => DockView { tabs: d.tabs.push(DockTab::Files), active: d.tabs.len(), ..d },
    }
}

fn find_tree(tabs: &Vec<DockTab>) -> (r: Option<usize>)
    ensures
        r matches Some(i) ==> i < tabs@.len(),
        tree_tab(tabs@, 0) == (match r {
            Some(i) => Some(i as int),
            None => None,
        }),
{
    let mut i: usize = 0;
    while i < tabs.len()
        invariant
            i <= tabs@.len(),
            tree_tab(tabs@, 0) == tree_tab(tabs@, i as int),
        decreases tabs@.len() - i,
    {
        if tabs[i] == DockTab::Files {
            return Some(i);
        }
        i += 1;
    }
    None
}

fn find_level(levels: &Vec<(String, Level)>, path: &str) -> (r: Option<usize>)
    ensures
        r matches Some(i) ==> i < levels@.len(),
        level_at(levels_view(levels@), path@, 0) == (match r {
            Some(i) => Some(i as int),
            None => None,
        }),
{
    let ghost view = levels_view(levels@);
    let mut i: usize = 0;
    while i < levels.len()
        invariant
            i <= levels@.len(),
            view == levels_view(levels@),
            level_at(view, path@, 0) == level_at(view, path@, i as int),
        decreases levels@.len() - i,
    {
        if text::same(levels[i].0.as_str(), path) {
            return Some(i);
        }
        i += 1;
    }
    None
}

proof fn lemma_tree_tab(tabs: Seq<DockTab>, from: int)
    requires
        0 <= from,
    ensures
        tree_tab(tabs, from) matches Some(i) ==> from <= i < tabs.len() && tabs[i]
            == DockTab::Files,
        tree_tab(tabs, from) is None ==> forall|i: int|
            from <= i < tabs.len() ==> #[trigger] tabs[i] != DockTab::Files,
    decreases tabs.len() - from,
{
    if from < tabs.len() && tabs[from] != DockTab::Files {
        lemma_tree_tab(tabs, from + 1);
    }
}

proof fn lemma_tree_pushed(d: DockView)
    requires
        well_formed(d),
        tree_tab(d.tabs, 0) is None,
    ensures
        forall|active: nat|
            active < d.tabs.len() + 1 ==> #[trigger] well_formed(
                DockView { tabs: d.tabs.push(DockTab::Files), active, ..d },
            ),
{
    lemma_tree_tab(d.tabs, 0);
    let tabs = d.tabs.push(DockTab::Files);
    assert forall|j: int| 0 <= j < d.files.len() implies #[trigger] has_tab(
        tabs,
        DockTab::File(j as usize),
    ) by {
        assert(has_tab(d.tabs, DockTab::File(j as usize)));
        let i = choose|i: int|
            0 <= i < d.tabs.len() && #[trigger] d.tabs[i] == DockTab::File(j as usize);
        assert(tabs[i] == DockTab::File(j as usize));
    }
}

impl DockState {
    /// A closed dock without tabs.
    pub fn new() -> (r: Self)
        ensures
            r.deep_view() == (DockView {
                open: false,
                tabs: Seq::empty(),
                active: 0,
                files: Seq::empty(),
                root: None,
                levels: Seq::empty(),
                expanded: Seq::empty(),
            }),
            well_formed(r.deep_view()),
    {
        let r = DockState {
            open: false,
            tabs: Vec::new(),
            active: 0,
            files: Vec::new(),
            root: None,
            levels: Vec::new(),
            expanded: Vec::new(),
        };
        assert(r.files.deep_view() =~= Seq::empty());
        assert(levels_view(r.levels@) =~= Seq::empty());
        assert(r.expanded.deep_view() =~= Seq::empty());
        r
    }

    fn missing_root(&self) -> (r: Option<String>)
        ensures
            r.deep_view() == root_to_list(self.deep_view()),
    {
        match &self.root {
            Some(root) => match find_level(&self.levels, root.as_str()) {
                Some(_) => None,
                None => Some(root.clone()),
            },
            None => None,
        }
    }

    fn change_root(&mut self, root: Option<String>)
        ensures
            final(self).deep_view() == rooted(old(self).deep_view(), root.deep_view()),
    {
        if !text::same_option(&self.root, &root) {
            self.levels = Vec::new();
            self.expanded = Vec::new();
            assert(levels_view(self.levels@) =~= Seq::empty());
            assert(self.expanded.deep_view() =~= Seq::empty());
            self.root = root;
        }
    }

    /// The tree follows the folder of the session in view. Returns the root
    /// where it has to be listed.
    pub fn dock_sync_root(&mut self, root: Option<String>) -> (r: Option<String>)
        ensures
            final(self).deep_view() == rooted(old(self).deep_view(), root.deep_view()),
            r.deep_view() == (if old(self).open {
                root_to_list(final(self).deep_view())
            } else {
                None
            }),
            well_formed(old(self).deep_view()) ==> well_formed(final(self).deep_view()),
    {
        self.change_root(root);
        if self.open {
            self.missing_root()
        } else {
            None
        }
    }

    /// Opens or closes the dock. Returns the root where it has to be listed.
    pub fn dock_toggle_open(&mut self, root: Option<String>) -> (r: Option<String>)
        requires
            well_formed(old(self).deep_view()),
        ensures
            final(self).deep_view() == open_toggled(old(self).deep_view(), root.deep_view()),
            r.deep_view() == (if old(self).open {
                None
            } else {
                root_to_list(final(self).deep_view())
            }),
            well_formed(final(self).deep_view()),
    {
        self.open = !self.open;
        if self.open {
            let ghost before = self.deep_view();
            if find_tree(&self.tabs).is_none() {
                proof {
                    lemma_tree_pushed(before);
                }
                self.tabs.push(DockTab::Files);
            }
            if self.active >= self.tabs.len() {
                self.active = 0;
            }
            proof {
                let now = self.deep_view();
                if tree_tab(before.tabs, 0) is None {
                    assert(now == (DockView {
                        tabs: before.tabs.push(DockTab::Files),
                        active: now.active,
                        ..before
                    }));
                }
                assert(well_formed(now));
            }
            self.change_root(root);
            self.missing_root()
        } else {
            None
        }
    }

    /// Makes a tab the active one.
    pub fn dock_activate(&mut self, i: usize)
        ensures
            final(self).deep_view() == (if i < old(self).tabs@.len() {
                DockView { active: i as nat, ..old(self).deep_view() }
            } else {
                old(self).deep_view()
            }),
            well_formed(old(self).deep_view()) ==> well_formed(final(self).deep_view()),
    {
        if i < self.tabs.len() {
            self.active = i;
        }
    }

    /// Shows the tree. Returns the root where it has to be listed.
    pub fn dock_add(&mut self) -> (r: Option<String>)
        requires
            well_formed(old(self).deep_view()),
        ensures
            final(self).deep_view() == tree_added(old(self).deep_view()),
            r.deep_view() == (if tree_tab(old(self).tabs@, 0) is Some {
                None
            } else {
                root_to_list(old(self).deep_view())
            }),
            well_formed(final(self).deep_view()),
    {
        let ghost before = self.deep_view();
        match find_tree(&self.tabs) {
            Some(i) => {
                self.active = i;
                None
            },
            None => {
                proof {
                    lemma_tree_pushed(before);
                }
                self.tabs.push(DockTab::Files);
                self.active = self.tabs.len() - 1;
                self.missing_root()
            },
        }
    }

    /// The preview of the active tab, by its place.
    pub fn active_preview(&self) -> (r: Option<usize>)
        ensures
            r == (if self.active < self.tabs@.len() {
                match self.tabs@[self.active as int] {
                    DockTab::File(fi) => if fi < self.files@.len() {
                        Some(fi)
                    } else {
                        None
                    },
                    DockTab::Files => None,
                }
            } else {
                None
            }),
    {
        if self.active < self.tabs.len() {
            match self.tabs[self.active] {
                DockTab::File(fi) => if fi < self.files.len() {
                    Some(fi)
                } else {
                    None
                },
                DockTab::Files => None,
            }
        } else {
            None
        }
    }
}

/// A tab before a preview was taken away, from what it is after.
spec fn before_removal(tab: DockTab, fi: usize) -> DockTab {
    match tab {
        DockTab::File(k) => if k < fi {
            tab
        } else {
            DockTab::File((k + 1) as usize)
        },
        DockTab::Files => tab,
    }
}

/// A tab after a preview was taken away.
spec fn after_removal(tab: DockTab, fi: usize) -> DockTab {
    match tab {
        DockTab::File(k) => if k <= fi {
            tab
        } else {
            DockTab::File((k - 1) as usize)
        },
        DockTab::Files => tab,
    }
}

spec fn tabs_distinct(tabs: Seq<DockTab>) -> bool {
    forall|i: int, j: int| 0 <= i < j < tabs.len() ==> tabs[i] != tabs[j]
}

proof fn lemma_tabs_without(tabs: Seq<DockTab>, fi: usize)
    requires
        tabs_distinct(tabs),
    ensures
        tabs_distinct(tabs_without(tabs, fi)),
        forall|i: int|
            0 <= i < tabs_without(tabs, fi).len() ==> {
                let t = #[trigger] tabs_without(tabs, fi)[i];
                &&& has_tab(tabs, before_removal(t, fi))
                &&& t matches DockTab::File(k) ==> k < usize::MAX
            },
        forall|i: int|
            0 <= i < tabs.len() && #[trigger] tabs[i] != DockTab::File(fi) ==> has_tab(
                tabs_without(tabs, fi),
                after_removal(tabs[i], fi),
            ),
        tabs_without(tabs, fi).len() <= tabs.len(),
    decreases tabs.len(),
{
    if tabs.len() > 0 {
        let head = tabs.drop_last();
        let last = tabs.last();
        assert(tabs_distinct(head)) by {
            assert forall|i: int, j: int| 0 <= i < j < head.len() implies head[i] != head[j] by {
                assert(tabs[i] != tabs[j]);
            }
        }
        lemma_tabs_without(head, fi);
        let kept = tabs_without(head, fi);
        let all = tabs_without(tabs, fi);
        assert forall|i: int| 0 <= i < kept.len() implies has_tab(
            tabs,
            before_removal(#[trigger] kept[i], fi),
        ) && before_removal(kept[i], fi) != last by {
            let t = before_removal(kept[i], fi);
            assert(has_tab(head, t));
            let k = choose|k: int| 0 <= k < head.len() && #[trigger] head[k] == t;
            assert(tabs[k] == t);
            assert(tabs[k] != tabs[tabs.len() - 1]);
        }
        if last != DockTab::File(fi) {
            let s = after_removal(last, fi);
            assert(all == kept.push(s));
            assert(before_removal(s, fi) == last);
            assert(tabs[tabs.len() - 1] == last);
            assert forall|i: int| 0 <= i < kept.len() implies kept[i] != s by {
                assert(before_removal(kept[i], fi) != last);
            }
            assert(all[kept.len() as int] == s);
            assert(has_tab(all, s));
        } else {
            assert(all == kept);
        }
        assert forall|i: int| 0 <= i < all.len() implies {
            let t = #[trigger] all[i];
            &&& has_tab(tabs, before_removal(t, fi))
            &&& t matches DockTab::File(k) ==> k < usize::MAX
        } by {
            if i < kept.len() {
                assert(all[i] == kept[i]);
            }
        }
        assert forall|i: int| 0 <= i < tabs.len() && #[trigger] tabs[i] != DockTab::File(fi) implies has_tab(
            all,
            after_removal(tabs[i], fi),
        ) by {
            if i < head.len() {
                assert(head[i] == tabs[i]);
                assert(has_tab(kept, after_removal(head[i], fi)));
                let k = choose|k: int|
                    0 <= k < kept.len() && #[trigger] kept[k] == after_removal(head[i], fi);
                assert(all[k] == after_removal(tabs[i], fi));
            }
        }
    }
}

proof fn lemma_file_closed(d: DockView, i: int)
    requires
        well_formed(d),
        0 <= i < d.tabs.len(),
        d.tabs[i] is File,
    ensures
        well_formed(tab_closed(d, i)),
{
    let fi = d.tabs[i]->File_0;
    lemma_tabs_without(d.tabs, fi);
    let tabs = tabs_without(d.tabs, fi);
    let files = d.files.remove(fi as int);
    assert forall|k: int| 0 <= k < tabs.len() implies ((#[trigger] tabs[k]) matches DockTab::File(j)
        ==> j < files.len()) by {
        if let DockTab::File(j) = tabs[k] {
            let t = before_removal(tabs[k], fi);
            assert(has_tab(d.tabs, t));
            let m = choose|m: int| 0 <= m < d.tabs.len() && #[trigger] d.tabs[m] == t;
            assert(d.tabs[m] is File);
        }
    }
    assert forall|j: int| 0 <= j < files.len() implies #[trigger] has_tab(
        tabs,
        DockTab::File(j as usize),
    ) by {
        let t = before_removal(DockTab::File(j as usize), fi);
        let old_place = if j < fi {
            j
        } else {
            j + 1
        };
        assert(has_tab(d.tabs, DockTab::File(old_place as usize)));
        let m = choose|m: int|
            0 <= m < d.tabs.len() && #[trigger] d.tabs[m] == DockTab::File(old_place as usize);
        assert(d.tabs[m] != DockTab::File(fi));
        assert(after_removal(d.tabs[m], fi) == DockTab::File(j as usize));
    }
}

proof fn lemma_tree_closed(d: DockView, i: int)
    requires
        well_formed(d),
        0 <= i < d.tabs.len(),
        d.tabs[i] is Files,
    ensures
        well_formed(tab_closed(d, i)),
{
    let tabs = d.tabs.remove(i);
    assert forall|a: int, b: int| 0 <= a < b < tabs.len() implies tabs[a] != tabs[b] by {
        let x = if a < i {
            a
        } else {
            a + 1
        };
        let y = if b < i {
            b
        } else {
            b + 1
        };
        assert(d.tabs[x] != d.tabs[y]);
    }
    assert forall|k: int| 0 <= k < tabs.len() implies ((#[trigger] tabs[k]) matches DockTab::File(j)
        ==> j < d.files.len()) by {
        let x = if k < i {
            k
        } else {
            k + 1
        };
        assert(d.tabs[x] == tabs[k]);
    }
    assert forall|j: int| 0 <= j < d.files.len() implies #[trigger] has_tab(
        tabs,
        DockTab::File(j as usize),
    ) by {
        assert(has_tab(d.tabs, DockTab::File(j as usize)));
        let m = choose|m: int|
            0 <= m < d.tabs.len() && #[trigger] d.tabs[m] == DockTab::File(j as usize);
        let x = if m < i {
            m
        } else {
            m - 1
        };
        assert(tabs[x] == DockTab::File(j as usize));
    }
}

fn drop_file_tab(tabs: &Vec<DockTab>, fi: usize) -> (r: Vec<DockTab>)
    ensures
        r@ == tabs_without(tabs@, fi),
{
    let mut out: Vec<DockTab> = Vec::new();
    let mut i: usize = 0;
    assert(out@ =~= tabs_without(tabs@.take(0), fi));
    while i < tabs.len()
        invariant
            i <= tabs@.len(),
            out@ == tabs_without(tabs@.take(i as int), fi),
        decreases tabs@.len() - i,
    {
        assert(tabs@.take(i + 1).drop_last() =~= tabs@.take(i as int));
        match tabs[i] {
            DockTab::Files => {
                out.push(DockTab::Files);
            },
            DockTab::File(j) => {
                if j < fi {
                    out.push(DockTab::File(j));
                } else if j > fi {
                    out.push(DockTab::File(j - 1));
                }
            },
        }
        i += 1;
    }
    assert(tabs@.take(i as int) =~= tabs@);
    out
}

/// The dock after a preview was put in, as the active tab.
pub open spec fn preview_added(d: DockView, p: PreviewView) -> DockView {
    DockView {
        open: true,
        files: d.files.push(p),
        tabs: d.tabs.push(DockTab::File(d.files.len() as usize)),
        active: d.tabs.len(),
        ..d
    }
}

impl DockState {
    /// Closes a tab; a preview goes with its tab.
    pub fn dock_close(&mut self, i: usize)
        requires
            well_formed(old(self).deep_view()),
        ensures
            final(self).deep_view() == tab_closed(old(self).deep_view(), i as int),
            well_formed(final(self).deep_view()),
    {
        let ghost before = self.deep_view();
        assert(before.files.len() == self.files@.len());
        if i >= self.tabs.len() {
            return ;
        }
        match self.tabs[i] {
            DockTab::File(fi) => {
                proof {
                    lemma_file_closed(before, i as int);
                }
                self.files.remove(fi);
                assert(self.files.deep_view() =~= before.files.remove(fi as int));
                self.tabs = drop_file_tab(&self.tabs, fi);
            },
            DockTab::Files => {
                proof {
                    lemma_tree_closed(before, i as int);
                }
                self.tabs.remove(i);
            },
        }
        if self.tabs.len() == 0 {
            self.open = false;
            self.active = 0;
        } else if self.active >= self.tabs.len() {
            self.active = self.tabs.len() - 1;
        }
    }

    fn find_file(&self, path: &str) -> (r: Option<usize>)
        ensures
            r matches Some(i) ==> i < self.tabs@.len(),
            file_tab(self.deep_view(), path@, 0) == (match r {
                Some(i) => Some(i as int),
                None => None,
            }),
    {
        let ghost d = self.deep_view();
        let mut i: usize = 0;
        while i < self.tabs.len()
            invariant
                i <= self.tabs@.len(),
                d == self.deep_view(),
                d.files.len() == self.files@.len(),
                file_tab(d, path@, 0) == file_tab(d, path@, i as int),
            decreases self.tabs@.len() - i,
        {
            if let DockTab::File(j) = self.tabs[i] {
                if j < self.files.len() {
                    assert(d.files[j as int] == self.files@[j as int].deep_view());
                    if text::same(self.files[j].path.as_str(), path) {
                        return Some(i);
                    }
                }
            }
            i += 1;
        }
        None
    }

    /// Shows the preview of a file that has one. Says whether it has.
    pub fn show_preview(&mut self, path: &str) -> (r: bool)
        ensures
            r == (file_tab(old(self).deep_view(), path@, 0) is Some),
            final(self).deep_view() == (match file_tab(old(self).deep_view(), path@, 0) {
                Some(i) => DockView { active: i as nat, open: true, ..old(self).deep_view() },
                None => old(self).deep_view(),
            }),
            well_formed(old(self).deep_view()) ==> well_formed(final(self).deep_view()),
    {
        match self.find_file(path) {
            Some(i) => {
                self.active = i;
                self.open = true;
                true
            },
            None => false,
        }
    }

    /// Puts the preview of a file in, as the active tab.
    pub fn add_preview(&mut self, p: FilePreview)
        requires
            well_formed(old(self).deep_view()),
            counts_loaded(p.deep_view()),
            old(self).files@.len() < usize::MAX,
        ensures
            final(self).deep_view() == preview_added(old(self).deep_view(), p.deep_view()),
            well_formed(final(self).deep_view()),
    {
        let ghost before = self.deep_view();
        let n: usize = self.files.len();
        assert(before.files.len() == n);
        self.files.push(p);
        assert(self.files.deep_view() =~= before.files.push(p.deep_view()));
        self.tabs.push(DockTab::File(n));
        self.active = self.tabs.len() - 1;
        self.open = true;
        proof {
            let after = self.deep_view();
            assert forall|j: int| 0 <= j < after.files.len() implies #[trigger] has_tab(
                after.tabs,
                DockTab::File(j as usize),
            ) by {
                if j < n {
                    assert(has_tab(before.tabs, DockTab::File(j as usize)));
                    let m = choose|m: int|
                        0 <= m < before.tabs.len() && #[trigger] before.tabs[m] == DockTab::File(
                            j as usize,
                        );
                    assert(after.tabs[m] == DockTab::File(j as usize));
                } else {
                    assert(after.tabs[before.tabs.len() as int] == DockTab::File(j as usize));
                }
            }
        }
    }

    /// Wraps or unwraps the lines of the active preview.
    pub fn preview_toggle_wrap(&mut self)
        ensures
            final(self).deep_view() == (if old(self).active < old(self).tabs@.len() {
                match old(self).tabs@[old(self).active as int] {
                    DockTab::File(fi) => if fi < old(self).files@.len() {
                        let d = old(self).deep_view();
                        DockView {
                            files: d.files.update(
                                fi as int,
                                PreviewView {
                                    wrap: !d.files[fi as int].wrap,
                                    ..d.files[fi as int]
                                },
                            ),
                            ..d
                        }
                    } else {
                        old(self).deep_view()
                    },
                    DockTab::Files => old(self).deep_view(),
                }
            } else {
                old(self).deep_view()
            }),
    {
        let ghost before = self.deep_view();
        if let Some(fi) = self.active_preview() {
            assert(before.files[fi as int] == self.files@[fi as int].deep_view());
            let wrap = self.files[fi].wrap;
            self.files[fi].wrap = !wrap;
            assert(self.files.deep_view() =~= before.files.update(
                fi as int,
                PreviewView { wrap: !wrap, ..before.files[fi as int] },
            ));
        }
    }
}

// ---------------------------------------------------------------------------
// the tree
// ---------------------------------------------------------------------------

/// The directories that were listed, with one more or one listed anew.
pub open spec fn with_level(
    levels: Seq<(Seq<char>, Level)>,
    path: Seq<char>,
    level: Level,
) -> Seq<(Seq<char>, Level)> {
    match level_at(levels, path, 0) {
        Some(i) => levels.update(i, (levels[i].0, level)),
        None => levels.push((path, level)),
    }
}

/// The dock after a directory was unfolded or folded.
pub open spec fn dir_toggled(d: DockView, path: Seq<char>) -> DockView {
    DockView {
        expanded: if d.expanded.contains(path) {
            roster::without_id(d.expanded, path)
        } else {
            d.expanded.push(path)
        },
        ..d
    }
}

impl DockState {
    /// Takes the listing of a directory in; without a root there is no tree.
    pub fn dock_loaded(&mut self, path: String, level: Level)
        ensures
            final(self).deep_view() == (if old(self).root is Some {
                DockView {
                    levels: with_level(old(self).deep_view().levels, path@, level),
                    ..old(self).deep_view()
                }
            } else {
                old(self).deep_view()
            }),
    {
        if self.root.is_none() {
            return ;
        }
        let ghost before = levels_view(self.levels@);
        match find_level(&self.levels, path.as_str()) {
            Some(i) => {
                self.levels[i].1 = level;
                assert(levels_view(self.levels@) =~= before.update(
                    i as int,
                    (before[i as int].0, level),
                ));
            },
            None => {
                self.levels.push((path, level));
                assert(levels_view(self.levels@) =~= before.push((path@, level)));
            },
        }
    }

    /// Unfolds or folds a directory. Says whether it has to be listed.
    pub fn dock_toggle_dir(&mut self, path: &str) -> (r: bool)
        ensures
            final(self).deep_view() == dir_toggled(old(self).deep_view(), path@),
            r == (!old(self).deep_view().expanded.contains(path@) && level_at(
                old(self).deep_view().levels,
                path@,
                0,
            ) is None),
    {
        if roster::among(&self.expanded, path) {
            self.expanded = roster::remove_id(&self.expanded, path);
            false
        } else {
            let ghost before = self.expanded.deep_view();
            self.expanded.push(path.to_string());
            assert(self.expanded.deep_view() =~= before.push(path@));
            find_level(&self.levels, path).is_none()
        }
    }

    /// Forgets all listings. Returns the directories to list anew: the unfolded
    /// ones.
    pub fn dock_reload_tree(&mut self) -> (r: Vec<String>)
        ensures
            final(self).deep_view() == (DockView {
                levels: Seq::empty(),
                ..old(self).deep_view()
            }),
            r.deep_view() == old(self).deep_view().expanded,
    {
        self.levels = Vec::new();
        assert(levels_view(self.levels@) =~= Seq::empty());
        let ghost all = self.expanded.deep_view();
        let mut out: Vec<String> = Vec::new();
        let mut i: usize = 0;
        assert(out.deep_view() =~= all.take(0));
        while i < self.expanded.len()
            invariant
                i <= self.expanded@.len(),
                all == self.expanded.deep_view(),
                out.deep_view() == all.take(i as int),
            decreases self.expanded@.len() - i,
        {
            let ghost before = out.deep_view();
            out.push(self.expanded[i].clone());
            assert(out.deep_view() =~= before.push(self.expanded@[i as int]@));
            assert(all.take(i + 1) =~= all.take(i as int).push(all[i as int]));
            i += 1;
        }
        assert(all.take(i as int) =~= all);
        out
    }
}

/// A row of the tree.
#[derive(Clone, Debug)]
pub enum TreeRow {
    /// A word in place of entries.
    Note { depth: usize, text: String },
    Dir { depth: usize, name: String, path: String, expanded: bool },
    File { depth: usize, name: String, path: String },
    /// What can not be opened.
    Other { depth: usize, name: String },
}

/// The contents of a row of the tree.
pub enum TreeRowView {
    Note { depth: nat, text: Seq<char> },
    Dir { depth: nat, name: Seq<char>, path: Seq<char>, expanded: bool },
    File { depth: nat, name: Seq<char>, path: Seq<char> },
    Other { depth: nat, name: Seq<char> },
}

impl DeepView for TreeRow {
    type V = TreeRowView;

    open spec fn deep_view(&self) -> TreeRowView {
        match self {
            TreeRow::Note { depth, text } => TreeRowView::Note { depth: *depth as nat, text: text@ },
            TreeRow::Dir { depth, name, path, expanded } => TreeRowView::Dir {
                depth: *depth as nat,
                name: name@,
                path: path@,
                expanded: *expanded,
            },
            TreeRow::File { depth, name, path } => TreeRowView::File {
                depth: *depth as nat,
                name: name@,
                path: path@,
            },
            TreeRow::Other { depth, name } => TreeRowView::Other {
                depth: *depth as nat,
                name: name@,
            },
        }
    }
}

/// The length of a path without the separators at its end.
pub open spec fn bare_len(path: Seq<char>) -> nat {
    text::stripped_end(path, files::separators()).len()
}

/// The length of the longest path.
pub open spec fn longest(paths: Seq<Seq<char>>) -> nat
    decreases paths.len(),
{
    if paths.len() == 0 {
        0
    } else {
        let rest = longest(paths.drop_last());
        if bare_len(paths.last()) > rest {
            bare_len(paths.last())
        } else {
            rest
        }
    }
}

/// How far a directory is from the deepest one that is unfolded.
pub open spec fn reach(d: DockView, path: Seq<char>) -> nat {
    if bare_len(path) <= longest(d.expanded) {
        (longest(d.expanded) - bare_len(path) + 1) as nat
    } else {
        0
    }
}

/// The rows of a directory and of the unfolded ones below it.
pub open spec fn level_rows(d: DockView, parent: Seq<char>, depth: nat) -> Seq<TreeRowView>
    decreases reach(d, parent), 1nat, 0nat,
{
    match level_at(d.levels, parent, 0) {
        None => Seq::empty(),
        Some(i) => match d.levels[i].1 {
            Err((kind, message)) => seq![
                TreeRowView::Note { depth, text: files::files_failure_text(kind, message@) },
            ],
            Ok(level) => {
                let entries = files::ordered(level.entries@);
                (if level.entries@.len() == 0 {
                    seq![TreeRowView::Note { depth, text: "空目录"@ }]
                } else {
                    Seq::empty()
                }) + entry_rows(d, parent, depth, entries, entries.len()) + (if level.truncated {
                    seq![TreeRowView::Note { depth, text: "条目太多，只显示了一部分。"@ }]
                } else {
                    Seq::empty()
                })
            },
        },
    }
}

/// The rows of the first `n` entries of a directory.
pub open spec fn entry_rows(
    d: DockView,
    parent: Seq<char>,
    depth: nat,
    entries: Seq<DirEntry>,
    n: nat,
) -> Seq<TreeRowView>
    decreases reach(d, parent), 0nat, n,
{
    if n == 0 {
        Seq::empty()
    } else {
        let e = entries[n - 1];
        let path = files::child_key(parent, e.name@);
        let head = entry_rows(d, parent, depth, entries, (n - 1) as nat);
        match e.kind {
            DirEntryKind::Directory => {
                let expanded = d.expanded.contains(path);
                head + seq![TreeRowView::Dir { depth, name: e.name@, path, expanded }] + (if expanded
                    && reach(d, path) < reach(d, parent) {
                    level_rows(d, path, depth + 1)
                } else {
                    Seq::empty()
                })
            },
            DirEntryKind::File => head.push(TreeRowView::File { depth, name: e.name@, path }),
            DirEntryKind::Other => head.push(TreeRowView::Other { depth, name: e.name@ }),
        }
    }
}

/// Whether an entry has a name, without separators in it.
pub open spec fn is_named(e: DirEntry) -> bool {
    &&& e.name@.len() > 0
    &&& forall|i: int| 0 <= i < e.name@.len() ==> !files::separators().contains(#[trigger] e.name@[i])
}

/// Whether the entries of a directory have names, without separators in them.
pub open spec fn level_named(level: Level) -> bool {
    match level {
        Ok(level) => forall|k: int|
            0 <= k < level.entries@.len() ==> is_named(#[trigger] level.entries@[k]),
        Err(_) => true,
    }
}

/// Whether all listed entries have names, without separators in them.
pub open spec fn all_named(d: DockView) -> bool {
    forall|i: int| 0 <= i < d.levels.len() ==> level_named((#[trigger] d.levels[i]).1)
}

proof fn lemma_longest(paths: Seq<Seq<char>>, path: Seq<char>)
    requires
        paths.contains(path),
    ensures
        bare_len(path) <= longest(paths),
    decreases paths.len(),
{
    let i = choose|i: int| 0 <= i < paths.len() && paths[i] == path;
    if i < paths.len() - 1 {
        assert(paths.drop_last()[i] == path);
        lemma_longest(paths.drop_last(), path);
    }
}

proof fn lemma_child_deeper(d: DockView, parent: Seq<char>, name: Seq<char>)
    requires
        name.len() > 0,
        forall|i: int| 0 <= i < name.len() ==> !files::separators().contains(#[trigger] name[i]),
        d.expanded.contains(files::child_key(parent, name)),
    ensures
        reach(d, files::child_key(parent, name)) < reach(d, parent),
{
    let child = files::child_key(parent, name);
    reveal_strlit("/");
    assert(child.last() == name[name.len() - 1]);
    assert(text::stripped_end(child, files::separators()) == child);
    lemma_longest(d.expanded, child);
}

proof fn lemma_ordered_named(s: Seq<DirEntry>)
    requires
        forall|k: int| 0 <= k < s.len() ==> is_named(#[trigger] s[k]),
    ensures
        forall|k: int| 0 <= k < files::ordered(s).len() ==> is_named(#[trigger] files::ordered(s)[k]),
    decreases s.len(),
{
    if s.len() > 0 {
        let head = s.drop_last();
        assert forall|k: int| 0 <= k < head.len() implies is_named(#[trigger] head[k]) by {
            assert(head[k] == s[k]);
        }
        lemma_ordered_named(head);
        assert(is_named(s[s.len() - 1]));
        lemma_placed_named(files::ordered(head), s.last());
    }
}

proof fn lemma_placed_named(s: Seq<DirEntry>, e: DirEntry)
    requires
        forall|k: int| 0 <= k < s.len() ==> is_named(#[trigger] s[k]),
        is_named(e),
    ensures
        forall|k: int|
            0 <= k < files::entry_placed(s, e).len() ==> is_named(
                #[trigger] files::entry_placed(s, e)[k],
            ),
    decreases s.len(),
{
    let all = files::entry_placed(s, e);
    if !(s.len() == 0 || files::entry_rank(s.last(), e) != crate::natural::Rank::After) {
        let head = s.drop_last();
        assert forall|k: int| 0 <= k < head.len() implies is_named(#[trigger] head[k]) by {
            assert(head[k] == s[k]);
        }
        lemma_placed_named(head, e);
        assert(is_named(s[s.len() - 1]));
        let p = files::entry_placed(head, e);
        assert forall|k: int| 0 <= k < all.len() implies is_named(#[trigger] all[k]) by {
            if k < p.len() {
                assert(all[k] == p[k]);
            }
        }
    } else {
        assert forall|k: int| 0 <= k < all.len() implies is_named(#[trigger] all[k]) by {
            if k < s.len() {
                assert(all[k] == s[k]);
            }
        }
    }
}

fn push_row(rows: &mut Vec<TreeRow>, row: TreeRow)
    ensures
        final(rows).deep_view() == old(rows).deep_view().push(row.deep_view()),
{
    let ghost before = rows.deep_view();
    rows.push(row);
    assert(rows.deep_view() =~= before.push(row.deep_view()));
}

impl DockState {
    fn add_level(&self, parent: &str, depth: usize, rows: &mut Vec<TreeRow>)
        requires
            all_named(self.deep_view()),
            depth + reach(self.deep_view(), parent@) <= usize::MAX,
        ensures
            final(rows).deep_view() == old(rows).deep_view() + level_rows(
                self.deep_view(),
                parent@,
                depth as nat,
            ),
        decreases reach(self.deep_view(), parent@), 1nat, 0nat,
    {
        let ghost d = self.deep_view();
        let ghost start = rows.deep_view();
        let i: usize = match find_level(&self.levels, parent) {
            Some(i) => i,
            None => {
                assert(start + Seq::empty() =~= start);
                return ;
            },
        };
        assert(d.levels[i as int] == (self.levels@[i as int].0@, self.levels@[i as int].1));
        match &self.levels[i].1 {
            Err(e) => {
                push_row(
                    rows,
                    TreeRow::Note { depth, text: files::files_failure_line(e.0, e.1.as_str()) },
                );
                assert(rows.deep_view() =~= start + level_rows(d, parent@, depth as nat));
            },
            Ok(level) => {
                if level.entries.len() == 0 {
                    push_row(rows, TreeRow::Note { depth, text: "空目录".to_string() });
                }
                let ghost first = if level.entries@.len() == 0 {
                    seq![TreeRowView::Note { depth: depth as nat, text: "空目录"@ }]
                } else {
                    Seq::empty()
                };
                assert(rows.deep_view() =~= start + first);
                let entries = files::order_entries(level.entries.as_slice());
                proof {
                    assert(level_named(d.levels[i as int].1));
                    lemma_ordered_named(level.entries@);
                }
                self.add_entries(parent, depth, &entries, rows);
                let ghost middle = entry_rows(
                    d,
                    parent@,
                    depth as nat,
                    entries@,
                    entries@.len(),
                );
                if level.truncated {
                    push_row(
                        rows,
                        TreeRow::Note { depth, text: "条目太多，只显示了一部分。".to_string() },
                    );
                }
                assert(rows.deep_view() =~= start + level_rows(d, parent@, depth as nat));
            },
        }
    }

    fn add_entries(
        &self,
        parent: &str,
        depth: usize,
        entries: &Vec<DirEntry>,
        rows: &mut Vec<TreeRow>,
    )
        requires
            all_named(self.deep_view()),
            depth + reach(self.deep_view(), parent@) <= usize::MAX,
            forall|k: int| 0 <= k < entries@.len() ==> is_named(#[trigger] entries@[k]),
        ensures
            final(rows).deep_view() == old(rows).deep_view() + entry_rows(
                self.deep_view(),
                parent@,
                depth as nat,
                entries@,
                entries@.len(),
            ),
        decreases reach(self.deep_view(), parent@), 0nat, 1nat,
    {
        let ghost d = self.deep_view();
        let ghost start = rows.deep_view();
        let mut k: usize = 0;
        assert(start + entry_rows(d, parent@, depth as nat, entries@, 0) =~= start);
        while k < entries.len()
            invariant
                k <= entries@.len(),
                d == self.deep_view(),
                all_named(d),
                depth + reach(d, parent@) <= usize::MAX,
                forall|k: int| 0 <= k < entries@.len() ==> is_named(#[trigger] entries@[k]),
                rows.deep_view() == start + entry_rows(
                    d,
                    parent@,
                    depth as nat,
                    entries@,
                    k as nat,
                ),
            decreases entries@.len() - k,
        {
            let e: &DirEntry = &entries[k];
            let path = files::child_path(parent, e.name.as_str());
            let ghost before = rows.deep_view();
            let ghost head = entry_rows(d, parent@, depth as nat, entries@, k as nat);
            assert(is_named(entries@[k as int]));
            match e.kind {
                DirEntryKind::Directory => {
                    let expanded = roster::among(&self.expanded, path.as_str());
                    let row = TreeRow::Dir {
                        depth,
                        name: e.name.clone(),
                        path: path.clone(),
                        expanded,
                    };
                    push_row(rows, row);
                    if expanded {
                        proof {
                            lemma_child_deeper(d, parent@, e.name@);
                        }
                        self.add_level(path.as_str(), depth + 1, rows);
                    }
                    proof {
                        let one = seq![row.deep_view()];
                        let below = if expanded {
                            level_rows(d, path@, depth as nat + 1)
                        } else {
                            Seq::empty()
                        };
                        assert(rows.deep_view() =~= start + (head + one + below));
                    }
                },
                DirEntryKind::File => {
                    let row = TreeRow::File { depth, name: e.name.clone(), path: path.clone() };
                    push_row(rows, row);
                    assert(rows.deep_view() =~= start + head.push(row.deep_view()));
                },
                DirEntryKind::Other => {
                    let row = TreeRow::Other { depth, name: e.name.clone() };
                    push_row(rows, row);
                    assert(rows.deep_view() =~= start + head.push(row.deep_view()));
                },
            }
            k += 1;
        }
    }

    /// The rows of the tree; nothing where the session has no folder.
    pub fn tree_rows(&self) -> (r: Option<Vec<TreeRow>>)
        requires
            all_named(self.deep_view()),
            longest(self.deep_view().expanded) < usize::MAX,
        ensures
            match self.deep_view().root {
                Some(root) => r matches Some(rows) && rows.deep_view() == level_rows(
                    self.deep_view(),
                    root,
                    0,
                ),
                None => r is None,
            },
    {
        match &self.root {
            Some(root) => {
                let mut rows: Vec<TreeRow> = Vec::new();
                assert(rows.deep_view() =~= Seq::empty());
                self.add_level(root.as_str(), 0, &mut rows);
                assert(Seq::empty() + level_rows(self.deep_view(), root@, 0) =~= level_rows(
                    self.deep_view(),
                    root@,
                    0,
                ));
                Some(rows)
            },
            None => None,
        }
    }

    /// The title of a tab.
    pub fn tab_title(&self, i: usize) -> (r: String)
        requires
            i < self.tabs@.len(),
        ensures
            r@ == (match self.tabs@[i as int] {
                DockTab::Files => "文件"@,
                DockTab::File(fi) => if fi < self.files@.len() {
                    filetype::base_name(self.files@[fi as int].path@)
                } else {
                    Seq::empty()
                },
            }),
    {
        match self.tabs[i] {
            DockTab::Files => "文件".to_string(),
            DockTab::File(fi) => if fi < self.files.len() {
                filetype::base_name_of(self.files[fi].path.as_str())
            } else {
                String::new()
            },
        }
    }
}

// ---------------------------------------------------------------------------
// laws
// ---------------------------------------------------------------------------

/// Opening a file twice gives it one tab: once it has one, that is shown.
pub proof fn open_file_has_one_tab(d: DockView, p: PreviewView)
    requires
        well_formed(d),
        d.files.len() < usize::MAX,
    ensures
        file_tab(preview_added(d, p), p.path, 0) is Some,
{
    let after = preview_added(d, p);
    lemma_file_tab(after, p.path, d.tabs.len() as int, 0);
}

proof fn lemma_file_tab(d: DockView, path: Seq<char>, at: int, from: int)
    requires
        0 <= from <= at < d.tabs.len(),
        d.tabs[at] matches DockTab::File(j) && j < d.files.len() && d.files[j as int].path == path,
    ensures
        file_tab(d, path, from) is Some,
    decreases at - from,
{
    if from < at && file_tab(d, path, from) is None {
        lemma_file_tab(d, path, at, from + 1);
    }
}

/// A preview that was read page by page counts the lines that it shows: each
/// page adds its lines behind the others, and a failure adds none.
pub proof fn pages_add_up(p: PreviewView, page: Result<TextPage, PreviewErrorKind>)
    requires
        counts_loaded(p),
        page matches Ok(page) ==> files::counts_lines(page),
    ensures
        counts_loaded(with_page(p, page)),
        p.lines.is_prefix_of(with_page(p, page).lines),
        page is Err ==> with_page(p, page).lines == p.lines && with_page(p, page).loaded_through
            == p.loaded_through,
        with_page(p, page).path == p.path,
{
    assert(p.lines =~= with_page(p, page).lines.take(p.lines.len() as int));
}

/// Closing a tab closes that tab and keeps the others in their order: each of
/// them still shows the file that it showed.
pub proof fn closing_keeps_the_other_tabs(d: DockView, i: int, k: int)
    requires
        well_formed(d),
        0 <= i < d.tabs.len(),
        0 <= k < d.tabs.len(),
        k != i,
    ensures
        ({
            let after = tab_closed(d, i);
            let at = if k < i {
                k
            } else {
                k - 1
            };
            &&& after.tabs.len() == d.tabs.len() - 1
            &&& d.tabs[k] == DockTab::Files ==> after.tabs[at] == DockTab::Files
            &&& d.tabs[k] matches DockTab::File(j) ==> (after.tabs[at] matches DockTab::File(m) && m
                < after.files.len() && after.files[m as int] == d.files[j as int])
            &&& d.tabs[i] is File ==> after.files.len() == d.files.len() - 1
            &&& d.tabs[i] is Files ==> after.files == d.files
            &&& after.root == d.root
            &&& after.expanded == d.expanded
        }),
{
    if let DockTab::File(fi) = d.tabs[i] {
        assert(fi < d.files.len());
        lemma_tabs_removed(d.tabs, fi, i, k);
        if let DockTab::File(j) = d.tabs[k] {
            assert(j < d.files.len());
            assert(j != fi) by {
                if k < i {
                    assert(d.tabs[k] != d.tabs[i]);
                } else {
                    assert(d.tabs[i] != d.tabs[k]);
                }
            }
        }
    }
}

proof fn lemma_tabs_removed(tabs: Seq<DockTab>, fi: usize, i: int, k: int)
    requires
        tabs_distinct(tabs),
        0 <= i < tabs.len(),
        tabs[i] == DockTab::File(fi),
        0 <= k < tabs.len(),
        k != i,
    ensures
        tabs_without(tabs, fi).len() == tabs.len() - 1,
        tabs_without(tabs, fi)[if k < i {
            k
        } else {
            k - 1
        }] == after_removal(tabs[k], fi),
    decreases tabs.len(),
{
    let head = tabs.drop_last();
    let n = tabs.len() - 1;
    assert(tabs_distinct(head)) by {
        assert forall|a: int, b: int| 0 <= a < b < head.len() implies head[a] != head[b] by {
            assert(tabs[a] != tabs[b]);
        }
    }
    if i == n {
        assert forall|a: int| 0 <= a < head.len() implies head[a] != DockTab::File(fi) by {
            assert(tabs[a] != tabs[n]);
        }
        lemma_tabs_kept(head, fi, k);
    } else {
        assert(tabs[i] != tabs[n]);
        if k < n {
            lemma_tabs_removed(head, fi, i, k);
        } else {
            lemma_removed_len(head, fi, i);
        }
    }
}

proof fn lemma_removed_len(tabs: Seq<DockTab>, fi: usize, i: int)
    requires
        tabs_distinct(tabs),
        0 <= i < tabs.len(),
        tabs[i] == DockTab::File(fi),
    ensures
        tabs_without(tabs, fi).len() == tabs.len() - 1,
    decreases tabs.len(),
{
    let head = tabs.drop_last();
    let n = tabs.len() - 1;
    assert(tabs_distinct(head)) by {
        assert forall|a: int, b: int| 0 <= a < b < head.len() implies head[a] != head[b] by {
            assert(tabs[a] != tabs[b]);
        }
    }
    if i == n {
        assert forall|a: int| 0 <= a < head.len() implies head[a] != DockTab::File(fi) by {
            assert(tabs[a] != tabs[n]);
        }
        if head.len() > 0 {
            lemma_tabs_kept(head, fi, 0);
        }
    } else {
        assert(tabs[i] != tabs[n]);
        lemma_removed_len(head, fi, i);
    }
}

proof fn lemma_tabs_kept(tabs: Seq<DockTab>, fi: usize, k: int)
    requires
        forall|a: int| 0 <= a < tabs.len() ==> #[trigger] tabs[a] != DockTab::File(fi),
        0 <= k < tabs.len(),
    ensures
        tabs_without(tabs, fi).len() == tabs.len(),
        tabs_without(tabs, fi)[k] == after_removal(tabs[k], fi),
    decreases tabs.len(),
{
    let head = tabs.drop_last();
    assert forall|a: int| 0 <= a < head.len() implies #[trigger] head[a] != DockTab::File(fi) by {
        assert(head[a] == tabs[a]);
    }
    assert(tabs[tabs.len() - 1] != DockTab::File(fi));
    if k < head.len() {
        lemma_tabs_kept(head, fi, k);
    } else if head.len() > 0 {
        lemma_tabs_kept(head, fi, 0);
    } else {
        assert(tabs_without(head, fi).len() == 0);
    }
}

/// Opening the dock shows the tree of the folder at hand; closing it keeps
/// everything. What was listed of another folder is forgotten.
pub proof fn dock_opens_on_the_folder(d: DockView, root: Option<Seq<char>>)
    ensures
        ({
            let next = open_toggled(d, root);
            &&& next.open == !d.open
            &&& d.open ==> next == DockView { open: false, ..d }
            &&& !d.open ==> next.root == root && has_tab(next.tabs, DockTab::Files) && next.files
                == d.files
            &&& !d.open && d.root != root ==> next.levels.len() == 0 && next.expanded.len() == 0
            &&& !d.open && d.root == root ==> next.levels == d.levels && next.expanded == d.expanded
            &&& !d.open ==> d.tabs.is_prefix_of(next.tabs) && next.tabs.len() <= d.tabs.len() + 1
        }),
{
    lemma_tree_tab(d.tabs, 0);
    if !d.open && tree_tab(d.tabs, 0) is None {
        assert(d.tabs.push(DockTab::Files)[d.tabs.len() as int] == DockTab::Files);
    }
}

/// A file that is opened is shown: its tab is the active one, behind the tabs
/// that were there.
pub proof fn opened_file_is_shown(d: DockView, p: PreviewView)
    requires
        d.files.len() < usize::MAX,
    ensures
        ({
            let next = preview_added(d, p);
            &&& next.open
            &&& next.active < next.tabs.len()
            &&& next.tabs[next.active as int] matches DockTab::File(j) && next.files[j as int] == p
            &&& next.tabs.drop_last() == d.tabs
            &&& next.files.drop_last() == d.files
        }),
{
    let next = preview_added(d, p);
    assert(next.tabs.drop_last() =~= d.tabs);
    assert(next.files.drop_last() =~= d.files);
}

/// The tree is shown in its one tab, which is added where it is missing.
pub proof fn tree_has_one_tab(d: DockView)
    ensures
        ({
            let next = tree_added(d);
            &&& next.active < next.tabs.len()
            &&& next.tabs[next.active as int] == DockTab::Files
            &&& has_tab(d.tabs, DockTab::Files) ==> next.tabs == d.tabs
            &&& !has_tab(d.tabs, DockTab::Files) ==> next.tabs == d.tabs.push(DockTab::Files)
            &&& next.files == d.files
        }),
{
    lemma_tree_tab(d.tabs, 0);
}

/// Toggling a directory unfolds it or folds it, and no other.
pub proof fn toggle_flips_one_directory(d: DockView, path: Seq<char>, other: Seq<char>)
    ensures
        dir_toggled(d, path).expanded.contains(path) <==> !d.expanded.contains(path),
        other != path ==> (dir_toggled(d, path).expanded.contains(other) <==> d.expanded.contains(
            other,
        )),
        dir_toggled(d, path).tabs == d.tabs,
        dir_toggled(d, path).levels == d.levels,
{
    if d.expanded.contains(path) {
        roster::taking_out_keeps_the_others(d.expanded, path, path);
        roster::taking_out_keeps_the_others(d.expanded, path, other);
    } else {
        let after = d.expanded.push(path);
        assert(after[after.len() - 1] == path);
        if d.expanded.contains(other) {
            let k = choose|k: int| 0 <= k < d.expanded.len() && d.expanded[k] == other;
            assert(after[k] == other);
        }
        if after.contains(other) && other != path {
            let k = choose|k: int| 0 <= k < after.len() && after[k] == other;
            assert(d.expanded[k] == other);
        }
    }
}

/// What was listed of a directory is found under its path, and what was listed
/// of the others stays.
pub proof fn listed_directory_is_found(
    levels: Seq<(Seq<char>, Level)>,
    path: Seq<char>,
    level: Level,
    other: Seq<char>,
)
    ensures
        ({
            let after = with_level(levels, path, level);
            &&& level_at(after, path, 0) matches Some(i) && 0 <= i < after.len() && after[i].1
                == level
            &&& other != path ==> (level_at(after, other, 0) is Some <==> level_at(
                levels,
                other,
                0,
            ) is Some)
            &&& other != path ==> (level_at(levels, other, 0) matches Some(i) ==> level_at(
                after,
                other,
                0,
            ) == Some(i) && after[i] == levels[i])
        }),
{
    let after = with_level(levels, path, level);
    lemma_level_place(levels, path, 0);
    lemma_level_place(levels, other, 0);
    lemma_level_place(after, path, 0);
    lemma_level_place(after, other, 0);
    match level_at(levels, path, 0) {
        Some(i) => {
            assert(after[i].0 == path);
            let k = level_at(after, path, 0)->0;
            if k < i {
                assert(after[k] == levels[k]);
            }
        },
        None => {
            assert(after[levels.len() as int].0 == path);
            let k = level_at(after, path, 0)->0;
            if k < levels.len() {
                assert(after[k] == levels[k]);
            }
        },
    }
    if other != path {
        if let Some(i) = level_at(levels, other, 0) {
            assert(after[i] == levels[i]);
            let k = level_at(after, other, 0)->0;
            if k < i {
                assert(after[k].0 == levels[k].0);
            }
        } else if let Some(k) = level_at(after, other, 0) {
            assert(k < levels.len());
            assert(after[k].0 == levels[k].0);
        }
    }
}

proof fn lemma_level_place(levels: Seq<(Seq<char>, Level)>, path: Seq<char>, from: int)
    requires
        0 <= from,
    ensures
        match level_at(levels, path, from) {
            Some(i) => from <= i < levels.len() && levels[i].0 == path && forall|j: int|
                from <= j < i ==> (#[trigger] levels[j]).0 != path,
            None => forall|j: int| from <= j < levels.len() ==> (#[trigger] levels[j]).0 != path,
        },
    decreases levels.len() - from,
{
    if from < levels.len() && levels[from].0 != path {
        lemma_level_place(levels, path, from + 1);
    }
}

/// In a tree with nothing unfolded every entry has one row, in order, that says
/// its name at its depth and, where it can be opened, its path.
pub proof fn folded_tree_shows_each_entry(
    d: DockView,
    parent: Seq<char>,
    depth: nat,
    entries: Seq<DirEntry>,
    n: nat,
    i: int,
)
    requires
        d.expanded.len() == 0,
        n <= entries.len(),
    ensures
        entry_rows(d, parent, depth, entries, n).len() == n,
        0 <= i < n ==> ({
            let row = entry_rows(d, parent, depth, entries, n)[i];
            let name = entries[i].name@;
            match entries[i].kind {
                DirEntryKind::Directory => row == (TreeRowView::Dir {
                    depth,
                    name,
                    path: files::child_key(parent, name),
                    expanded: false,
                }),
                DirEntryKind::File => row == (TreeRowView::File {
                    depth,
                    name,
                    path: files::child_key(parent, name),
                }),
                DirEntryKind::Other => row == (TreeRowView::Other { depth, name }),
            }
        }),
    decreases n,
{
    if n > 0 {
        folded_tree_shows_each_entry(d, parent, depth, entries, (n - 1) as nat, i);
    }
}

/// An unfolded directory shows its own rows below it, one level deeper.
pub proof fn unfolded_directory_shows_its_rows(
    d: DockView,
    parent: Seq<char>,
    depth: nat,
    entries: Seq<DirEntry>,
    n: nat,
)
    requires
        0 < n <= entries.len(),
        entries[n - 1].kind is Directory,
        is_named(entries[n - 1]),
        d.expanded.contains(files::child_key(parent, entries[n - 1].name@)),
    ensures
        ({
            let path = files::child_key(parent, entries[n - 1].name@);
            let rows = entry_rows(d, parent, depth, entries, n);
            let below = level_rows(d, path, depth + 1);
            let head = entry_rows(d, parent, depth, entries, (n - 1) as nat);
            &&& rows.len() == head.len() + 1 + below.len()
            &&& rows[head.len() as int] == (TreeRowView::Dir {
                depth,
                name: entries[n - 1].name@,
                path,
                expanded: true,
            })
            &&& rows.skip(head.len() + 1int) == below
        }),
{
    lemma_child_deeper(d, parent, entries[n - 1].name@);
    let path = files::child_key(parent, entries[n - 1].name@);
    let rows = entry_rows(d, parent, depth, entries, n);
    let head = entry_rows(d, parent, depth, entries, (n - 1) as nat);
    assert(rows.skip(head.len() + 1int) =~= level_rows(d, path, depth + 1));
}

/// A path is its folder and its name: put together again they are the path.
pub proof fn path_is_folder_and_name(path: Seq<char>)
    ensures
        ({
            let (folder, name) = path_parts(path);
            &&& folder.len() > 0 ==> folder.len() + 1 + name.len() == path.len() && path.take(
                folder.len() as int,
            ) == folder && path.skip(folder.len() + 1int) == name
            &&& !path.contains('/') && !path.contains('\\') ==> name == path
            &&& text::finishes(path, name)
        }),
{
    let (folder, name) = path_parts(path);
    filetype::lemma_last_index(path, seq!['/', '\\']);
    assert(path.skip(path.len() - name.len()) =~= name);
    if let Some(i) = filetype::last_index(path, seq!['/', '\\']) {
        let set = seq!['/', '\\'];
        let k = choose|k: int| 0 <= k < set.len() && set[k] == path[i];
        assert(path[i] == '/' || path[i] == '\\');
        assert(path.contains(path[i]));
    }
}

/// More can be loaded until the end of the file was read, and the line says how
/// much was.
pub proof fn more_can_be_loaded(p: PreviewView)
    ensures
        more_text(p) is Some <==> !p.eof && p.lines.len() > 0,
        more_text(p) matches Some(s) ==> text::holds_text(s, text::dec(p.loaded_through)),
        placeholder_text(p) is Some <==> p.lines.len() == 0,
        p.lines.len() == 0 && p.failure is Some ==> placeholder_text(p) == Some(
            files::preview_failure_text(p.failure->0),
        ),
{
    if let Some(s) = more_text(p) {
        let n = "加载更多（已载 "@.len() as int;
        let d = text::dec(p.loaded_through);
        assert(s.subrange(n, n + d.len()) =~= d);
        assert(text::stands_at(s, d, n));
    }
}

/// A page that was read adds its lines behind the others and moves on; the end
/// is marked exactly where the page reached it.
pub proof fn page_adds_its_lines(p: PreviewView, page: TextPage)
    ensures
        ({
            let next = with_page(p, Ok(page));
            &&& page.lines > 0 ==> next.lines == p.lines + text::pieces(page.text@, '\n')
            &&& page.lines == 0 ==> next.lines == p.lines
            &&& next.loaded_through == p.loaded_through + page.lines
            &&& next.eof == page.eof
            &&& next.failure is None
            &&& next.wrap == p.wrap
        }),
        fresh_preview(p.path).path == p.path,
        fresh_preview(p.path).lines.len() == 0,
        fresh_preview(p.path).loaded_through == 0,
        !fresh_preview(p.path).eof,
{
}

} // verus!
