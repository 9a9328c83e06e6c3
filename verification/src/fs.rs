//! The file tool: which paths it may touch, and what its operations answer.

use crate::json;
use crate::session::ToolSchema;
use crate::text;
use vstd::prelude::*;

verus! {

// ---------------------------------------------------------------------------
// paths
// ---------------------------------------------------------------------------

/// A component of a path.
#[derive(Clone, Debug)]
pub enum Part {
    /// The root, with the drive or share that it belongs to.
    Root(String),
    /// `.`
    Current,
    /// `..`
    Up,
    Name(String),
}

/// The contents of a component.
pub enum PartView {
    Root(Seq<char>),
    Current,
    Up,
    Name(Seq<char>),
}

impl DeepView for Part {
    type V = PartView;

    open spec fn deep_view(&self) -> PartView {
        match self {
            Part::Root(s) => PartView::Root(s@),
            Part::Current => PartView::Current,
            Part::Up => PartView::Up,
            Part::Name(s) => PartView::Name(s@),
        }
    }
}

/// A path, its components and what the file system resolves it to: `reals[k]`
/// is the real path of its `k`-th ancestor, the path itself being the 0th,
/// where that exists.
pub struct Probe {
    pub path: String,
    pub parts: Vec<Part>,
    pub reals: Vec<Option<Vec<Part>>>,
}

/// The contents of a probe.
pub struct ProbeView {
    pub path: Seq<char>,
    pub parts: Seq<PartView>,
    pub reals: Seq<Option<Seq<PartView>>>,
}

impl DeepView for Probe {
    type V = ProbeView;

    open spec fn deep_view(&self) -> ProbeView {
        ProbeView {
            path: self.path@,
            parts: self.parts.deep_view(),
            reals: self.reals.deep_view(),
        }
    }
}

/// A path with one more component behind it, by the letter: `..` takes back the
/// name before it, and the root has nothing above it.
pub open spec fn stepped(path: Seq<PartView>, p: PartView) -> Seq<PartView> {
    match p {
        PartView::Current => path,
        PartView::Up => if path.len() > 0 && path.last() is Name {
            path.drop_last()
        } else if path.len() > 0 && path.last() is Root {
            path
        } else {
            path.push(p)
        },
        _ => path.push(p),
    }
}

/// A path with more components behind it, by the letter.
pub open spec fn walked(path: Seq<PartView>, parts: Seq<PartView>) -> Seq<PartView>
    decreases parts.len(),
{
    if parts.len() == 0 {
        path
    } else {
        stepped(walked(path, parts.drop_last()), parts.last())
    }
}

/// Whether a path that ends with this component has a parent.
pub open spec fn has_parent(p: PartView) -> bool {
    !(p is Root)
}

/// The real path, as far as the file system knows it, looking from the `k`-th
/// ancestor up: the real path of the nearest ancestor that exists, and behind
/// it, by the letter, what leads on to the path. Where no ancestor exists, the
/// path by the letter.
pub open spec fn real_from(p: ProbeView, k: int) -> Seq<PartView>
    decreases p.parts.len() - k,
{
    if k < 0 || k > p.parts.len() {
        walked(Seq::empty(), p.parts)
    } else if k < p.reals.len() && p.reals[k] is Some {
        walked(p.reals[k]->0, p.parts.skip(p.parts.len() - k))
    } else if k < p.parts.len() && has_parent(p.parts[p.parts.len() - k - 1]) {
        real_from(p, k + 1)
    } else {
        walked(Seq::empty(), p.parts)
    }
}

/// The real path, as far as the file system knows it.
pub open spec fn real_path(p: ProbeView) -> Seq<PartView> {
    real_from(p, 0)
}

/// Whether `path` is `root` or lies below it, component by component.
pub open spec fn below(path: Seq<PartView>, root: Seq<PartView>) -> bool {
    root.len() <= path.len() && path.take(root.len() as int) == root
}

/// A copy of a component.
fn copy_part(p: &Part) -> (r: Part)
    ensures
        r == *p,
{
    match p {
        Part::Root(s) => Part::Root(s.clone()),
        Part::Current => Part::Current,
        Part::Up => Part::Up,
        Part::Name(s) => Part::Name(s.clone()),
    }
}

fn same_part(a: &Part, b: &Part) -> (r: bool)
    ensures
        r == (a.deep_view() == b.deep_view()),
{
    match (a, b) {
        (Part::Root(x), Part::Root(y)) => text::same(x.as_str(), y.as_str()),
        (Part::Name(x), Part::Name(y)) => text::same(x.as_str(), y.as_str()),
        (Part::Current, Part::Current) => true,
        (Part::Up, Part::Up) => true,
        _ => false,
    }
}

/// Puts one more component behind a path.
fn step(path: &mut Vec<Part>, p: &Part)
    ensures
        final(path).deep_view() == stepped(old(path).deep_view(), p.deep_view()),
{
    let ghost before = path.deep_view();
    let n: usize = path.len();
    assert(before.len() == n);
    match p {
        Part::Current => {},
        Part::Up => {
            if n > 0 {
                assert(before[n - 1] == path@[n - 1].deep_view());
                match &path[n - 1] {
                    Part::Name(_) => {
                        path.pop();
                        assert(path.deep_view() =~= before.drop_last());
                        return;
                    },
                    Part::Root(_) => {
                        return;
                    },
                    _ => {},
                }
            }
            path.push(Part::Up);
            assert(path.deep_view() =~= before.push(PartView::Up));
        },
        _ => {
            let c: Part = copy_part(p);
            path.push(c);
            assert(path.deep_view() =~= before.push(p.deep_view()));
        },
    }
}

/// Puts the components from `from` on behind a path.
fn walk(path: &mut Vec<Part>, parts: &Vec<Part>, from: usize)
    requires
        from <= parts@.len(),
    ensures
        final(path).deep_view() == walked(
            old(path).deep_view(),
            parts.deep_view().skip(from as int),
        ),
{
    let ghost start = path.deep_view();
    let ghost tail = parts.deep_view().skip(from as int);
    let mut i: usize = from;
    while i < parts.len()
        invariant
            from <= i <= parts@.len(),
            tail == parts.deep_view().skip(from as int),
            path.deep_view() == walked(start, tail.take(i - from)),
        decreases parts@.len() - i,
    {
        let ghost next = tail.take(i - from + 1);
        assert(next.drop_last() =~= tail.take(i - from));
        assert(next.last() == parts@[i as int].deep_view());
        step(path, &parts[i]);
        i = i + 1;
    }
    assert(tail.take(i - from) =~= tail);
}

/// A copy of a path.
fn copy_parts(parts: &Vec<Part>) -> (r: Vec<Part>)
    ensures
        r.deep_view() == parts.deep_view(),
{
    let mut r: Vec<Part> = Vec::new();
    let mut i: usize = 0;
    while i < parts.len()
        invariant
            i <= parts@.len(),
            r@ == parts@.take(i as int),
        decreases parts@.len() - i,
    {
        r.push(copy_part(&parts[i]));
        i = i + 1;
        assert(r@ =~= parts@.take(i as int));
    }
    assert(r@ =~= parts@);
    r
}

/// The real path as far as the file system knows it: where the target does not
/// exist, the nearest ancestor that does, with what remains behind it by the
/// letter.
pub fn canonicalize_best_effort(p: &Probe) -> (r: Vec<Part>)
    ensures
        r.deep_view() == real_path(p.deep_view()),
{
    let n: usize = p.parts.len();
    let ghost v = p.deep_view();
    let mut k: usize = 0;
    loop
        invariant
            k <= n,
            n == p.parts@.len(),
            v == p.deep_view(),
            real_path(v) == real_from(v, k as int),
        decreases n - k,
    {
        assert(v.parts.len() == n);
        if k < p.reals.len() {
            match &p.reals[k] {
                Some(known) => {
                    let mut out: Vec<Part> = copy_parts(known);
                    walk(&mut out, &p.parts, n - k);
                    assert(v.reals[k as int] == Some(known.deep_view()));
                    return out;
                },
                None => {
                    assert(v.reals[k as int] is None);
                },
            }
        }
        let up: bool = k < n && (match &p.parts[n - k - 1] {
            Part::Root(_) => false,
            _ => true,
        });
        if up {
            assert(v.parts[n - k - 1] == p.parts@[n - k - 1].deep_view());
            k = k + 1;
        } else {
            if k < n {
                assert(v.parts[n - k - 1] == p.parts@[n - k - 1].deep_view());
            }
            let mut out: Vec<Part> = Vec::new();
            assert(out.deep_view() =~= Seq::<PartView>::empty());
            walk(&mut out, &p.parts, 0);
            assert(v.parts.skip(0) =~= v.parts);
            return out;
        }
    }
}

fn is_below(path: &Vec<Part>, root: &Vec<Part>) -> (r: bool)
    ensures
        r == below(path.deep_view(), root.deep_view()),
{
    if root.len() > path.len() {
        return false;
    }
    let mut i: usize = 0;
    while i < root.len()
        invariant
            i <= root@.len() <= path@.len(),
            forall|k: int| 0 <= k < i ==> path.deep_view()[k] == root.deep_view()[k],
        decreases root@.len() - i,
    {
        if !same_part(&path[i], &root[i]) {
            assert(path.deep_view().take(root@.len() as int)[i as int]
                != root.deep_view()[i as int]);
            return false;
        }
        i = i + 1;
    }
    assert(path.deep_view().take(root@.len() as int) =~= root.deep_view());
    true
}

/// A path text with the home directory in place of a leading `~`.
pub open spec fn home_expanded(path: Seq<char>, home: Option<Seq<char>>) -> Seq<char> {
    match home {
        Some(home) => if text::begins(path, "~/"@) {
            home + "/"@ + path.skip(2)
        } else if path == "~"@ {
            home
        } else {
            path
        },
        None => path,
    }
}

/// A path text with the home directory in place of a leading `~`.
pub fn expand_home(path: &str, home: Option<&str>) -> (r: String)
    ensures
        r@ == home_expanded(
            path@,
            match home {
                Some(home) => Some(home@),
                None => None,
            },
        ),
{
    proof {
        reveal_strlit("~/");
    }
    match home {
        Some(home) => match text::strip_prefix(path, "~/") {
            Some(rest) => text::concat3(home, "/", rest.as_str()),
            None => {
                if text::same(path, "~") {
                    home.to_owned()
                } else {
                    path.to_owned()
                }
            },
        },
        None => path.to_owned(),
    }
}

// ---------------------------------------------------------------------------
// policies
// ---------------------------------------------------------------------------

/// What the file system says of paths, and the home directory.
pub struct Disk {
    pub home: Option<String>,
    pub probes: Vec<Probe>,
}

/// The contents of what the file system says.
pub struct DiskView {
    pub home: Option<Seq<char>>,
    pub probes: Seq<ProbeView>,
}

impl DeepView for Disk {
    type V = DiskView;

    open spec fn deep_view(&self) -> DiskView {
        DiskView { home: self.home.deep_view(), probes: self.probes.deep_view() }
    }
}

/// What the file system says of a path, from the probe at `from` on.
pub open spec fn probe_from(probes: Seq<ProbeView>, path: Seq<char>, from: int) -> Option<ProbeView>
    decreases probes.len() - from,
{
    if from < 0 || from >= probes.len() {
        None
    } else if probes[from].path == path {
        Some(probes[from])
    } else {
        probe_from(probes, path, from + 1)
    }
}

/// The real path of a path, as far as it is known, where the file system was
/// asked about it; a leading `~` is the home directory.
pub open spec fn real_of(d: DiskView, path: Seq<char>) -> Option<Seq<PartView>> {
    match probe_from(d.probes, home_expanded(path, d.home), 0) {
        Some(p) => Some(real_path(p)),
        None => None,
    }
}

/// Whether a path lies below one of the roots.
pub open spec fn inside_some_root(roots: Seq<Seq<char>>, path: Seq<char>, d: DiskView) -> bool {
    real_of(d, path) matches Some(target) && exists|i: int|
        0 <= i < roots.len() && (#[trigger] real_of(d, roots[i]) matches Some(root) && below(
            target,
            root,
        ))
}

impl Disk {
    /// The real path of a path, as far as it is known, where the file system
    /// was asked about it.
    pub fn real_parts(&self, path: &str) -> (r: Option<Vec<Part>>)
        ensures
            r.deep_view() == real_of(self.deep_view(), path@),
    {
        let home: Option<&str> = match &self.home {
            Some(home) => Some(home.as_str()),
            None => None,
        };
        let full: String = expand_home(path, home);
        let ghost v = self.deep_view();
        let mut i: usize = 0;
        while i < self.probes.len()
            invariant
                i <= self.probes@.len(),
                v == self.deep_view(),
                full@ == home_expanded(path@, v.home),
                probe_from(v.probes, full@, 0) == probe_from(v.probes, full@, i as int),
            decreases self.probes@.len() - i,
        {
            assert(v.probes[i as int] == self.probes@[i as int].deep_view());
            if text::same(self.probes[i].path.as_str(), full.as_str()) {
                return Some(canonicalize_best_effort(&self.probes[i]));
            }
            i = i + 1;
        }
        assert(v.probes.len() == self.probes@.len());
        None
    }
}

/// Which paths the file tool may read and write.
pub trait FsPolicy {
    /// Whether reading, listing and looking for the path is allowed.
    fn allow_read(&self, path: &str) -> (r: bool)
        default_ensures
            r,
    {
        true
    }

    /// Whether writing to the path is allowed.
    fn allow_write(&self, path: &str, disk: &Disk) -> (r: bool)
        default_ensures
            r,
    {
        true
    }

    /// What a refused operation is answered.
    fn deny_reason(&self) -> (r: &'static str)
        default_ensures
            r@ == "path denied by fs policy"@,
    {
        "path denied by fs policy"
    }
}

/// Allows everything.
pub struct AllowAllPolicy;

impl FsPolicy for AllowAllPolicy {

}

/// Allows writes below the roots of the workspace only.
pub struct WorkspaceContainment {
    roots: Vec<String>,
}

impl WorkspaceContainment {
    /// The roots as they were given.
    pub closed spec fn root_list(self) -> Seq<Seq<char>> {
        self.roots.deep_view()
    }

    pub fn new(roots: Vec<String>) -> (r: Self)
        ensures
            r.root_list() == roots.deep_view(),
    {
        WorkspaceContainment { roots }
    }

    /// Replaces the roots.
    pub fn set_roots(&mut self, roots: Vec<String>)
        ensures
            final(self).root_list() == roots.deep_view(),
    {
        self.roots = roots;
    }

    /// The roots as they were given.
    pub fn roots(&self) -> (r: &Vec<String>)
        ensures
            r.deep_view() == self.root_list(),
    {
        &self.roots
    }

    /// Whether the path lies below one of the roots; with no roots, nothing
    /// does.
    pub fn under_any(&self, path: &str, disk: &Disk) -> (r: bool)
        ensures
            r == inside_some_root(self.root_list(), path@, disk.deep_view()),
    {
        let ghost d = disk.deep_view();
        let ghost all = self.root_list();
        let target: Vec<Part> = match disk.real_parts(path) {
            Some(target) => target,
            None => {
                return false;
            },
        };
        let mut i: usize = 0;
        while i < self.roots.len()
            invariant
                i <= self.roots@.len(),
                all == self.roots.deep_view(),
                d == disk.deep_view(),
                real_of(d, path@) == Some(target.deep_view()),
                forall|k: int|
                    0 <= k < i ==> !(#[trigger] real_of(d, all[k]) matches Some(root) && below(
                        target.deep_view(),
                        root,
                    )),
            decreases self.roots@.len() - i,
        {
            assert(all[i as int] == self.roots@[i as int]@);
            if let Some(root) = disk.real_parts(self.roots[i].as_str()) {
                if is_below(&target, &root) {
                    assert(real_of(d, all[i as int]) == Some(root.deep_view()));
                    return true;
                }
            }
            i = i + 1;
        }
        false
    }
}

impl FsPolicy for WorkspaceContainment {
    fn allow_write(&self, path: &str, disk: &Disk) -> (r: bool)
        ensures
            r == inside_some_root(self.root_list(), path@, disk.deep_view()),
    {
        self.under_any(path, disk)
    }

    fn deny_reason(&self) -> (r: &'static str)
        ensures
            r@ == "write denied: path is outside the workspace sandbox"@,
    {
        "write denied: path is outside the workspace sandbox"
    }
}

/// How far the file tool may go.
#[derive(Clone, Copy, Debug, PartialEq, Eq, Structural)]
pub enum FsMode {
    /// Every write is refused.
    ReadOnly,
    /// Writes stay below the roots.
    WorkspaceWrite,
    /// Nothing is refused.
    DangerFullAccess,
}

/// The name of a mode in session events.
pub open spec fn mode_name(m: FsMode) -> Seq<char> {
    match m {
        FsMode::ReadOnly => "read-only"@,
        FsMode::WorkspaceWrite => "workspace-write"@,
        FsMode::DangerFullAccess => "danger-full-access"@,
    }
}

/// The mode with the given name.
pub open spec fn mode_named(s: Seq<char>) -> Option<FsMode> {
    if s == "read-only"@ {
        Some(FsMode::ReadOnly)
    } else if s == "workspace-write"@ {
        Some(FsMode::WorkspaceWrite)
    } else if s == "danger-full-access"@ {
        Some(FsMode::DangerFullAccess)
    } else {
        None
    }
}

impl FsMode {
    /// The mode with the given name.
    pub fn from_web(value: &str) -> (r: Option<Self>)
        ensures
            r == mode_named(value@),
    {
        if text::same(value, "read-only") {
            Some(FsMode::ReadOnly)
        } else if text::same(value, "workspace-write") {
            Some(FsMode::WorkspaceWrite)
        } else if text::same(value, "danger-full-access") {
            Some(FsMode::DangerFullAccess)
        } else {
            None
        }
    }

    /// The name of the mode.
    pub fn as_web(&self) -> (r: &'static str)
        ensures
            r@ == mode_name(*self),
    {
        match self {
            FsMode::ReadOnly => "read-only",
            FsMode::WorkspaceWrite => "workspace-write",
            FsMode::DangerFullAccess => "danger-full-access",
        }
    }
}

/// A policy whose mode can be switched.
pub struct SwitchablePolicy {
    mode: FsMode,
    containment: WorkspaceContainment,
}

/// Whether writing to a path is allowed in a mode, with the given roots.
pub open spec fn mode_allows(
    mode: FsMode,
    roots: Seq<Seq<char>>,
    path: Seq<char>,
    d: DiskView,
) -> bool {
    match mode {
        FsMode::ReadOnly => false,
        FsMode::WorkspaceWrite => inside_some_root(roots, path, d),
        FsMode::DangerFullAccess => true,
    }
}

/// What a write refused in a mode is answered.
pub open spec fn mode_reason(mode: FsMode) -> Seq<char> {
    match mode {
        FsMode::ReadOnly => "write denied: the session is read-only (permission preset)"@,
        FsMode::WorkspaceWrite => "write denied: path is outside the workspace sandbox"@,
        FsMode::DangerFullAccess => "write denied"@,
    }
}

impl SwitchablePolicy {
    /// The mode that is set.
    pub closed spec fn mode_set(self) -> FsMode {
        self.mode
    }

    /// The roots as they were given.
    pub closed spec fn root_list(self) -> Seq<Seq<char>> {
        self.containment.root_list()
    }

    pub fn new(mode: FsMode, roots: Vec<String>) -> (r: Self)
        ensures
            r.mode_set() == mode,
            r.root_list() == roots.deep_view(),
    {
        SwitchablePolicy { mode, containment: WorkspaceContainment::new(roots) }
    }

    /// Switches the mode.
    pub fn set_mode(&mut self, mode: FsMode)
        ensures
            final(self).mode_set() == mode,
            final(self).root_list() == old(self).root_list(),
    {
        self.mode = mode;
    }

    /// The mode that is set.
    pub fn mode(&self) -> (r: FsMode)
        ensures
            r == self.mode_set(),
    {
        self.mode
    }

    /// Replaces the roots.
    pub fn set_roots(&mut self, roots: Vec<String>)
        ensures
            final(self).root_list() == roots.deep_view(),
            final(self).mode_set() == old(self).mode_set(),
    {
        self.containment.set_roots(roots);
    }

    /// The roots as they were given.
    pub fn roots(&self) -> (r: &Vec<String>)
        ensures
            r.deep_view() == self.root_list(),
    {
        self.containment.roots()
    }
}

impl FsPolicy for SwitchablePolicy {
    fn allow_write(&self, path: &str, disk: &Disk) -> (r: bool)
        ensures
            r == mode_allows(self.mode_set(), self.root_list(), path@, disk.deep_view()),
    {
        match self.mode {
            FsMode::ReadOnly => false,
            FsMode::WorkspaceWrite => self.containment.under_any(path, disk),
            FsMode::DangerFullAccess => true,
        }
    }

    fn deny_reason(&self) -> (r: &'static str)
        ensures
            r@ == mode_reason(self.mode_set()),
    {
        match self.mode {
            FsMode::ReadOnly => "write denied: the session is read-only (permission preset)",
            FsMode::WorkspaceWrite => self.containment.deny_reason(),
            FsMode::DangerFullAccess => "write denied",
        }
    }
}

// ---------------------------------------------------------------------------
// laws
// ---------------------------------------------------------------------------

/// The name of a mode names that mode, and no other text does.
pub proof fn mode_names_round_trip(m: FsMode, s: Seq<char>)
    ensures
        mode_named(mode_name(m)) == Some(m),
        mode_named(s) == Some(m) ==> s == mode_name(m),
{
    reveal_strlit("read-only");
    reveal_strlit("workspace-write");
    reveal_strlit("danger-full-access");
    assert("read-only"@.len() == 9);
    assert("workspace-write"@.len() == 15);
    assert("danger-full-access"@.len() == 18);
}

/// Without roots nothing can be written in the workspace mode; in the read-only
/// mode nothing can be written at all; with full access everything can.
pub proof fn modes_bound_writes(roots: Seq<Seq<char>>, path: Seq<char>, d: DiskView)
    ensures
        !mode_allows(FsMode::ReadOnly, roots, path, d),
        !mode_allows(FsMode::WorkspaceWrite, Seq::empty(), path, d),
        mode_allows(FsMode::DangerFullAccess, roots, path, d),
{
}

/// A path that the workspace mode allows writing to lies below one of the roots
/// of the policy.
pub proof fn workspace_writes_stay_below_a_root(
    roots: Seq<Seq<char>>,
    path: Seq<char>,
    d: DiskView,
)
    requires
        mode_allows(FsMode::WorkspaceWrite, roots, path, d),
    ensures
        real_of(d, path) is Some,
        exists|i: int|
            0 <= i < roots.len() && (#[trigger] real_of(d, roots[i]) matches Some(root) && below(
                real_of(d, path)->0,
                root,
            )),
{
}

/// A path that does not exist yet is judged by its nearest ancestor that does:
/// where that lies below a root and nothing behind it leads up, so does the
/// path.
pub proof fn new_path_follows_its_ancestor(p: ProbeView, k: int, root: Seq<PartView>)
    requires
        0 <= k <= p.parts.len(),
        k < p.reals.len(),
        p.reals[k] is Some,
        forall|j: int| 0 <= j < k ==> (#[trigger] p.reals[j]) is None,
        forall|j: int|
            p.parts.len() - k <= j < p.parts.len() ==> has_parent(#[trigger] p.parts[j])
                && !(p.parts[j] is Up),
        below(p.reals[k]->0, root),
    ensures
        real_path(p) == walked(p.reals[k]->0, p.parts.skip(p.parts.len() - k)),
        below(real_path(p), root),
{
    lemma_real_from(p, 0, k);
    let c = p.reals[k]->0;
    let tail = p.parts.skip(p.parts.len() - k);
    assert forall|j: int| 0 <= j < tail.len() implies !((#[trigger] tail[j]) is Up) by {
        assert(tail[j] == p.parts[p.parts.len() - k + j]);
    }
    lemma_walked_down(c, tail);
    let full = walked(c, tail);
    assert(full.take(root.len() as int) =~= c.take(root.len() as int)) by {
        assert(full.take(c.len() as int) == c);
        assert forall|i: int| 0 <= i < c.len() implies full[i] == c[i] by {
            assert(full.take(c.len() as int)[i] == c[i]);
        }
    }
}

proof fn lemma_walked_down(c: Seq<PartView>, tail: Seq<PartView>)
    requires
        forall|j: int| 0 <= j < tail.len() ==> !((#[trigger] tail[j]) is Up),
    ensures
        walked(c, tail).len() >= c.len(),
        walked(c, tail).take(c.len() as int) == c,
    decreases tail.len(),
{
    if tail.len() == 0 {
        assert(c.take(c.len() as int) =~= c);
    } else {
        let head = tail.drop_last();
        assert forall|j: int| 0 <= j < head.len() implies !((#[trigger] head[j]) is Up) by {
            assert(head[j] == tail[j]);
        }
        lemma_walked_down(c, head);
        assert(!(tail[tail.len() - 1] is Up));
        assert(walked(c, tail).take(c.len() as int) =~= walked(c, head).take(c.len() as int));
    }
}

/// A name and `..` behind it lead nowhere: what follows goes on from where they
/// began.
pub proof fn up_takes_back_a_name(path: Seq<PartView>, name: Seq<char>, rest: Seq<PartView>)
    ensures
        walked(path, seq![PartView::Name(name), PartView::Up] + rest) == walked(path, rest),
    decreases rest.len(),
{
    let two = seq![PartView::Name(name), PartView::Up];
    if rest.len() == 0 {
        assert(two + rest =~= two);
        let one = two.drop_last();
        assert(one.drop_last() =~= Seq::empty());
        reveal_with_fuel(walked, 3);
        assert(one.last() == PartView::Name(name));
        assert(walked(path, one) == path.push(PartView::Name(name)));
        assert(path.push(PartView::Name(name)).drop_last() =~= path);
    } else {
        assert((two + rest).drop_last() =~= two + rest.drop_last());
        up_takes_back_a_name(path, name, rest.drop_last());
    }
}

proof fn lemma_real_from(p: ProbeView, i: int, k: int)
    requires
        0 <= i <= k <= p.parts.len(),
        k < p.reals.len(),
        p.reals[k] is Some,
        forall|j: int| 0 <= j < k ==> (#[trigger] p.reals[j]) is None,
        forall|j: int|
            p.parts.len() - k <= j < p.parts.len() ==> has_parent(#[trigger] p.parts[j]),
    ensures
        real_from(p, i) == walked(p.reals[k]->0, p.parts.skip(p.parts.len() - k)),
    decreases k - i,
{
    if i < k {
        assert(p.reals[i] is None);
        assert(has_parent(p.parts[p.parts.len() - i - 1]));
        lemma_real_from(p, i + 1, k);
    }
}

// ---------------------------------------------------------------------------
// the tool
// ---------------------------------------------------------------------------

/// What a call of the file tool asks for.
pub struct FsRequest {
    pub op: String,
    pub path: String,
    pub content: String,
}

/// What the file tool does on disk.
pub enum FsAction {
    Read,
    Write,
    List,
    Exists,
}

/// What a tool answers.
pub struct ToolOutcome {
    pub text: String,
    pub is_error: bool,
    /// What is shown of the call beside the text.
    pub presentation: Option<json::Json>,
}

/// The contents of an answer.
pub struct OutcomeView {
    pub text: Seq<char>,
    pub is_error: bool,
    pub presentation: Option<json::JsonView>,
}

impl DeepView for ToolOutcome {
    type V = OutcomeView;

    open spec fn deep_view(&self) -> OutcomeView {
        OutcomeView {
            text: self.text@,
            is_error: self.is_error,
            presentation: self.presentation.deep_view(),
        }
    }
}

/// An answer of plain text.
pub open spec fn plain_answer(s: Seq<char>) -> OutcomeView {
    OutcomeView { text: s, is_error: false, presentation: None }
}

/// An answer that reports a failure.
pub open spec fn failure_answer(s: Seq<char>) -> OutcomeView {
    OutcomeView { text: s, is_error: true, presentation: None }
}

impl ToolOutcome {
    /// An answer of plain text.
    pub fn plain(text: String) -> (r: Self)
        ensures
            r.deep_view() == plain_answer(text@),
    {
        ToolOutcome { text, is_error: false, presentation: None }
    }

    /// An answer that reports a failure.
    pub fn failure(text: String) -> (r: Self)
        ensures
            r.deep_view() == failure_answer(text@),
    {
        ToolOutcome { text, is_error: true, presentation: None }
    }
}

/// The arguments of a call as they came, read; nothing where they do not read.
pub fn read_arguments(raw: &str) -> (r: json::Json)
    ensures
        r.deep_view() == (match json::parsed_json(raw@) {
            Some(v) => v,
            None => json::JsonView::Null,
        }),
{
    match json::parse_json(raw) {
        Some(v) => v,
        None => json::Json::Null,
    }
}

/// What the arguments of a call ask for; what is missing or no text is empty.
pub fn fs_request(arguments: &json::Json) -> (r: FsRequest)
    ensures
        r.op@ == json::text_or_empty(arguments.deep_view().member("op"@)),
        r.path@ == json::text_or_empty(arguments.deep_view().member("path"@)),
        r.content@ == json::text_or_empty(arguments.deep_view().member("content"@)),
{
    FsRequest {
        op: json::text_or_default(arguments.get("op")),
        path: json::text_or_default(arguments.get("path")),
        content: json::text_or_default(arguments.get("content")),
    }
}

/// Whether an operation reads.
pub open spec fn op_reads(op: Seq<char>) -> bool {
    op == "read"@ || op == "list"@ || op == "exists"@
}

/// What the tool does for an operation on a path, or what it answers at once:
/// `read_ok`, `write_ok` and `reason` are the answers of the policy.
pub open spec fn plan_of(
    op: Seq<char>,
    path: Seq<char>,
    read_ok: bool,
    write_ok: bool,
    reason: Seq<char>,
) -> Result<FsAction, Seq<char>> {
    if path.len() == 0 {
        Err("path must be a non-empty string"@)
    } else if op_reads(op) && !read_ok {
        Err(reason)
    } else if op == "write"@ && !write_ok {
        Err(reason)
    } else if op == "read"@ {
        Ok(FsAction::Read)
    } else if op == "write"@ {
        Ok(FsAction::Write)
    } else if op == "list"@ {
        Ok(FsAction::List)
    } else if op == "exists"@ {
        Ok(FsAction::Exists)
    } else {
        Err("unknown op \""@ + op + "\""@)
    }
}

/// What the tool does for an operation on a resolved path, or what it answers
/// at once.
pub fn plan_for(op: &str, path: &str, read_ok: bool, write_ok: bool, reason: &str) -> (r: Result<
    FsAction,
    ToolOutcome,
>)
    ensures
        match (r, plan_of(op@, path@, read_ok, write_ok, reason@)) {
            (Ok(a), Ok(b)) => a == b,
            (Err(a), Err(b)) => a.deep_view() == failure_answer(b),
            _ => false,
        },
{
    if path.is_empty() {
        return Err(ToolOutcome::failure("path must be a non-empty string".to_owned()));
    }
    let is_read: bool = text::same(op, "read");
    let is_list: bool = text::same(op, "list");
    let is_exists: bool = text::same(op, "exists");
    let is_write: bool = text::same(op, "write");
    if (is_read || is_list || is_exists) && !read_ok {
        return Err(ToolOutcome::failure(reason.to_owned()));
    }
    if is_write && !write_ok {
        return Err(ToolOutcome::failure(reason.to_owned()));
    }
    if is_read {
        Ok(FsAction::Read)
    } else if is_write {
        Ok(FsAction::Write)
    } else if is_list {
        Ok(FsAction::List)
    } else if is_exists {
        Ok(FsAction::Exists)
    } else {
        Err(ToolOutcome::failure(text::concat3("unknown op \"", op, "\"")))
    }
}

/// The answer to a read of a path.
pub open spec fn read_answer(
    path: Seq<char>,
    is_dir: bool,
    content: Result<String, String>,
) -> OutcomeView {
    if is_dir {
        failure_answer("read failed: "@ + path + " is a directory; use op=list"@)
    } else {
        match content {
            Ok(s) => plain_answer(s@),
            Err(e) => failure_answer("read failed: "@ + e@),
        }
    }
}

/// The answer to a read: a directory points to the operation that lists it.
pub fn read_outcome(path: &str, is_dir: bool, content: Result<String, String>) -> (r: ToolOutcome)
    ensures
        r.deep_view() == read_answer(path@, is_dir, content),
{
    if is_dir {
        return ToolOutcome::failure(
            text::concat3("read failed: ", path, " is a directory; use op=list"),
        );
    }
    match content {
        Ok(s) => ToolOutcome::plain(s),
        Err(e) => ToolOutcome::failure(text::concat2("read failed: ", e.as_str())),
    }
}

/// What is shown of a write: the path, the text before, where there was one,
/// and the text after.
pub open spec fn diff_card(
    path: Seq<char>,
    before: Option<Seq<char>>,
    after: Seq<char>,
) -> json::JsonView {
    json::JsonView::Object(
        seq![
            ("card"@, json::JsonView::Text("diff"@)),
            ("diffs"@, json::JsonView::Array(seq![diff_row(path, before, after)])),
        ],
    )
}

/// The answer to a write.
pub open spec fn write_answer(
    path: Seq<char>,
    content: Seq<char>,
    before: Option<Seq<char>>,
    written: Result<(), String>,
) -> OutcomeView {
    match written {
        Ok(_) => OutcomeView {
            text: "wrote "@ + text::dec(vstd::utf8::encode_utf8(content).len()) + " bytes"@,
            is_error: false,
            presentation: Some(diff_card(path, before, content)),
        },
        Err(e) => failure_answer("write failed: "@ + e@),
    }
}

/// One change of a file.
pub open spec fn diff_row(
    path: Seq<char>,
    before: Option<Seq<char>>,
    after: Seq<char>,
) -> json::JsonView {
    json::JsonView::Object(
        seq![
            ("path"@, json::JsonView::Text(path)),
            (
                "oldText"@,
                match before {
                    Some(s) => json::JsonView::Text(s),
                    None => json::JsonView::Null,
                },
            ),
            ("newText"@, json::JsonView::Text(after)),
        ],
    )
}

fn build_row(path: &str, before: Option<String>, after: &str) -> (r: json::Json)
    ensures
        r.deep_view() == diff_row(path@, before.deep_view(), after@),
{
    let old_text: json::Json = match before {
        Some(s) => json::Json::Text(s),
        None => json::Json::Null,
    };
    let mut row: Vec<(String, json::Json)> = Vec::new();
    row.push(("path".to_owned(), json::Json::Text(path.to_owned())));
    row.push(("oldText".to_owned(), old_text));
    row.push(("newText".to_owned(), json::Json::Text(after.to_owned())));
    proof {
        json::lemma_object_view(row);
        assert(json::pairs_view(row@) =~= diff_row(
            path@,
            before.deep_view(),
            after@,
        )->Object_0);
    }
    json::Json::Object(row)
}

fn build_diff(path: &str, before: Option<String>, after: &str) -> (r: json::Json)
    ensures
        r.deep_view() == diff_card(path@, before.deep_view(), after@),
{
    let row: json::Json = build_row(path, before, after);
    let mut diffs: Vec<json::Json> = Vec::new();
    diffs.push(row);
    let ghost change = diff_row(path@, before.deep_view(), after@);
    proof {
        json::lemma_array_view(diffs);
        assert(json::items_view(diffs@) =~= seq![change]);
    }
    let mut card: Vec<(String, json::Json)> = Vec::new();
    card.push(("card".to_owned(), json::Json::Text("diff".to_owned())));
    card.push(("diffs".to_owned(), json::Json::Array(diffs)));
    proof {
        json::lemma_object_view(card);
        assert(json::pairs_view(card@) =~= diff_card(
            path@,
            before.deep_view(),
            after@,
        )->Object_0);
    }
    json::Json::Object(card)
}

/// The answer to a write: the number of bytes, and what changed.
pub fn write_outcome(
    path: &str,
    content: &str,
    before: Option<String>,
    written: Result<(), String>,
) -> (r: ToolOutcome)
    ensures
        r.deep_view() == write_answer(path@, content@, before.deep_view(), written),
{
    match written {
        Ok(_) => {
            let size: usize = content.as_bytes().len();
            let n: String = text::decimal(size as u64);
            ToolOutcome {
                text: text::concat3("wrote ", n.as_str(), " bytes"),
                is_error: false,
                presentation: Some(build_diff(path, before, content)),
            }
        },
        Err(e) => ToolOutcome::failure(text::concat2("write failed: ", e.as_str())),
    }
}

/// The names, one to a line.
pub open spec fn name_lines(names: Seq<Seq<char>>) -> Seq<char>
    decreases names.len(),
{
    if names.len() == 0 {
        Seq::empty()
    } else {
        name_lines(names.drop_last()) + names.last() + "\n"@
    }
}

/// The answer to a listing.
pub open spec fn list_answer(names: Result<Vec<String>, String>) -> OutcomeView {
    match names {
        Ok(names) => plain_answer(name_lines(names.deep_view())),
        Err(e) => failure_answer("list failed: "@ + e@),
    }
}

/// The answer to a listing: the names, one to a line.
pub fn list_outcome(names: Result<Vec<String>, String>) -> (r: ToolOutcome)
    ensures
        r.deep_view() == list_answer(names),
{
    match names {
        Ok(names) => {
            let mut out: String = String::new();
            let mut i: usize = 0;
            let ghost all = names.deep_view();
            assert(all.take(0) =~= Seq::<Seq<char>>::empty());
            while i < names.len()
                invariant
                    i <= names@.len(),
                    all == names.deep_view(),
                    out@ == name_lines(all.take(i as int)),
                decreases names@.len() - i,
            {
                let ghost next = all.take(i + 1);
                assert(next.drop_last() =~= all.take(i as int));
                assert(next.last() == names@[i as int]@);
                out.append(names[i].as_str());
                out.append("\n");
                i = i + 1;
            }
            assert(all.take(i as int) =~= all);
            ToolOutcome::plain(out)
        },
        Err(e) => ToolOutcome::failure(text::concat2("list failed: ", e.as_str())),
    }
}

/// The answer to the question whether a path exists.
pub fn exists_outcome(found: bool) -> (r: ToolOutcome)
    ensures
        r.deep_view() == plain_answer(
            if found {
                "true"@
            } else {
                "false"@
            },
        ),
{
    if found {
        ToolOutcome::plain("true".to_owned())
    } else {
        ToolOutcome::plain("false".to_owned())
    }
}

/// The file tool: a policy and the directory that relative paths start from.
pub struct FsTool<P: FsPolicy> {
    pub policy: P,
    pub workdir: Option<String>,
}

/// What a model is told of a tool.
pub struct ToolDefinition {
    pub name: &'static str,
    pub description: &'static str,
    pub parameters: json::Json,
}

impl ToolDefinition {
    /// The tool as a request tells the model of it.
    pub fn schema(&self) -> (r: ToolSchema)
        ensures
            r.name@ == self.name@,
            r.description@ == self.description@,
            json::pretty_json(self.parameters.deep_view()) == Some(r.parameters@),
    {
        let parameters: String = match json::render_json(&self.parameters) {
            Some(s) => s,
            None => String::new(),
        };
        ToolSchema { name: self.name.to_owned(), description: self.description.to_owned(), parameters }
    }
}

/// The schema of a text, with what it is for.
pub open spec fn text_schema(description: Seq<char>) -> json::JsonView {
    json::JsonView::Object(
        seq![
            ("type"@, json::JsonView::Text("string"@)),
            ("description"@, json::JsonView::Text(description)),
        ],
    )
}

/// The schema of the arguments of the file tool.
pub open spec fn fs_schema() -> json::JsonView {
    json::JsonView::Object(
        seq![
            ("type"@, json::JsonView::Text("object"@)),
            (
                "properties"@,
                json::JsonView::Object(
                    seq![
                        (
                            "op"@,
                            json::JsonView::Object(
                                seq![
                                    ("type"@, json::JsonView::Text("string"@)),
                                    (
                                        "enum"@,
                                        json::text_array(
                                            seq!["read"@, "write"@, "list"@, "exists"@],
                                        ),
                                    ),
                                ],
                            ),
                        ),
                        ("path"@, text_schema("Filesystem path."@)),
                        ("content"@, text_schema("Content to write (write op only)."@)),
                    ],
                ),
            ),
            ("required"@, json::text_array(seq!["op"@, "path"@])),
        ],
    )
}

fn build_text_schema(description: &str) -> (r: json::Json)
    ensures
        r.deep_view() == text_schema(description@),
{
    let mut v: Vec<(String, json::Json)> = Vec::new();
    assert(json::pairs_view(v@) =~= Seq::empty());
    json::add_pair(&mut v, "type", json::Json::Text("string".to_owned()));
    json::add_pair(&mut v, "description", json::Json::Text(description.to_owned()));
    proof {
        json::lemma_object_view(v);
        assert(json::pairs_view(v@) =~= text_schema(description@)->Object_0);
    }
    json::Json::Object(v)
}

fn build_schema() -> (r: json::Json)
    ensures
        r.deep_view() == fs_schema(),
{
    let mut ops: Vec<String> = Vec::new();
    ops.push("read".to_owned());
    ops.push("write".to_owned());
    ops.push("list".to_owned());
    ops.push("exists".to_owned());
    assert(ops.deep_view() =~= seq!["read"@, "write"@, "list"@, "exists"@]);
    let mut needed: Vec<String> = Vec::new();
    needed.push("op".to_owned());
    needed.push("path".to_owned());
    assert(needed.deep_view() =~= seq!["op"@, "path"@]);
    let mut op: Vec<(String, json::Json)> = Vec::new();
    assert(json::pairs_view(op@) =~= Seq::empty());
    json::add_pair(&mut op, "type", json::Json::Text("string".to_owned()));
    json::add_pair(&mut op, "enum", json::array_of_texts(&ops));
    let mut properties: Vec<(String, json::Json)> = Vec::new();
    assert(json::pairs_view(properties@) =~= Seq::empty());
    proof {
        json::lemma_object_view(op);
    }
    json::add_pair(&mut properties, "op", json::Json::Object(op));
    json::add_pair(&mut properties, "path", build_text_schema("Filesystem path."));
    json::add_pair(
        &mut properties,
        "content",
        build_text_schema("Content to write (write op only)."),
    );
    let mut all: Vec<(String, json::Json)> = Vec::new();
    assert(json::pairs_view(all@) =~= Seq::empty());
    proof {
        json::lemma_object_view(properties);
    }
    json::add_pair(&mut all, "type", json::Json::Text("object".to_owned()));
    json::add_pair(&mut all, "properties", json::Json::Object(properties));
    json::add_pair(&mut all, "required", json::array_of_texts(&needed));
    proof {
        json::lemma_object_view(all);
        let pairs = fs_schema()->Object_0;
        let inner = pairs[1].1->Object_0;
        assert(json::pairs_view(op@) =~= inner[0].1->Object_0);
        assert(json::pairs_view(properties@) =~= inner);
        assert(json::pairs_view(all@) =~= pairs);
    }
    json::Json::Object(all)
}

impl<P: FsPolicy> FsTool<P> {
    pub fn new(policy: P) -> (r: Self)
        ensures
            r.policy == policy,
            r.workdir is None,
    {
        FsTool { policy, workdir: None }
    }

    /// What a model is told of the tool.
    pub fn definition(&self) -> (r: ToolDefinition)
        ensures
            r.name@ == "fs"@,
            r.description@ == "Read, write, list, or check files on the local filesystem."@,
            r.parameters.deep_view() == fs_schema(),
    {
        ToolDefinition {
            name: "fs",
            description: "Read, write, list, or check files on the local filesystem.",
            parameters: build_schema(),
        }
    }

    /// The tool with the directory that relative paths start from.
    pub fn with_workdir(self, workdir: String) -> (r: Self)
        ensures
            r.policy == self.policy,
            r.workdir == Some(workdir),
    {
        FsTool { policy: self.policy, workdir: Some(workdir) }
    }

    /// What the tool does for an operation on a resolved path, or what it
    /// answers at once. The policy is asked about the path once, and only what
    /// the operation needs; where it refuses, for the reason.
    pub fn plan(&self, op: &str, path: &str, disk: &Disk) -> (r: Result<FsAction, ToolOutcome>)
        ensures
            path@.len() == 0 || !(op_reads(op@) || op@ == "write"@) ==> answers(
                r,
                plan_of(op@, path@, true, true, Seq::empty()),
            ),
            path@.len() > 0 && op_reads(op@) ==> exists|ok: bool|
                #[trigger] call_ensures(P::allow_read, (&self.policy, path), ok) && if ok {
                    answers(r, plan_of(op@, path@, true, true, Seq::empty()))
                } else {
                    exists|reason: &'static str|
                        #[trigger] call_ensures(P::deny_reason, (&self.policy,), reason) && answers(
                            r,
                            Err(reason@),
                        )
                },
            path@.len() > 0 && op@ == "write"@ ==> exists|ok: bool|
                #[trigger] call_ensures(P::allow_write, (&self.policy, path, disk), ok) && if ok {
                    answers(r, plan_of(op@, path@, true, true, Seq::empty()))
                } else {
                    exists|reason: &'static str|
                        #[trigger] call_ensures(P::deny_reason, (&self.policy,), reason) && answers(
                            r,
                            Err(reason@),
                        )
                },
    {
        proof {
            lemma_ops();
        }
        if path.is_empty() {
            return plan_for(op, path, true, true, "");
        }
        let ok: bool = if text::same(op, "read") || text::same(op, "list") || text::same(
            op,
            "exists",
        ) {
            self.policy.allow_read(path)
        } else if text::same(op, "write") {
            self.policy.allow_write(path, disk)
        } else {
            true
        };
        if ok {
            plan_for(op, path, true, true, "")
        } else {
            let reason: &'static str = self.policy.deny_reason();
            plan_for(op, path, false, false, reason)
        }
    }
}

/// Whether an outcome is the one that was planned.
pub open spec fn answers(
    r: Result<FsAction, ToolOutcome>,
    planned: Result<FsAction, Seq<char>>,
) -> bool {
    match (r, planned) {
        (Ok(a), Ok(b)) => a == b,
        (Err(a), Err(b)) => a.deep_view() == failure_answer(b),
        _ => false,
    }
}

proof fn lemma_ops()
    ensures
        !op_reads("write"@),
        ""@ == Seq::<char>::empty(),
{
    reveal_strlit("read");
    reveal_strlit("list");
    reveal_strlit("exists");
    reveal_strlit("write");
    reveal_strlit("");
    assert("write"@.len() == 5);
    assert("read"@.len() == 4);
    assert("list"@.len() == 4);
    assert("exists"@.len() == 6);
    assert(""@ =~= Seq::<char>::empty());
}

impl FsTool<SwitchablePolicy> {
    /// What the tool does for an operation on a resolved path under a policy
    /// with modes.
    pub fn plan_switched(&self, op: &str, path: &str, disk: &Disk) -> (r: Result<
        FsAction,
        ToolOutcome,
    >)
        ensures
            answers(
                r,
                plan_of(
                    op@,
                    path@,
                    true,
                    mode_allows(
                        self.policy.mode_set(),
                        self.policy.root_list(),
                        path@,
                        disk.deep_view(),
                    ),
                    mode_reason(self.policy.mode_set()),
                ),
            ),
    {
        proof {
            lemma_ops();
        }
        self.plan(op, path, disk)
    }
}

/// A read-only session never writes: every write on a path is refused with the
/// reason of the mode.
pub proof fn read_only_refuses_writes(path: Seq<char>, roots: Seq<Seq<char>>, d: DiskView)
    requires
        path.len() > 0,
    ensures
        plan_of(
            "write"@,
            path,
            true,
            mode_allows(FsMode::ReadOnly, roots, path, d),
            mode_reason(FsMode::ReadOnly),
        ) == Err::<FsAction, Seq<char>>(mode_reason(FsMode::ReadOnly)),
{
    lemma_ops();
}

/// A listing gives its names back: split at the line breaks, the answer holds
/// each name and ends with an empty line.
pub proof fn listing_gives_back_the_names(names: Vec<String>)
    requires
        forall|i: int|
            0 <= i < names@.len() ==> !(#[trigger] names.deep_view()[i]).contains('\n'),
    ensures
        text::pieces(list_answer(Ok(names)).text, '\n') == names.deep_view().push(Seq::empty()),
        !list_answer(Ok(names)).is_error,
{
    lemma_lines_of_names(names.deep_view());
}

proof fn lemma_lines_of_names(names: Seq<Seq<char>>)
    requires
        forall|i: int| 0 <= i < names.len() ==> !(#[trigger] names[i]).contains('\n'),
    ensures
        text::pieces(name_lines(names), '\n') == names.push(Seq::empty()),
    decreases names.len(),
{
    reveal_strlit("\n");
    if names.len() > 0 {
        let head = names.drop_last();
        assert forall|i: int| 0 <= i < head.len() implies !(#[trigger] head[i]).contains('\n') by {
            assert(head[i] == names[i]);
        }
        lemma_lines_of_names(head);
        lemma_pieces_grow(name_lines(head), names.last());
        let s = name_lines(head) + names.last();
        assert(name_lines(names) =~= s.push('\n'));
        assert(s.push('\n').drop_last() =~= s);
        assert(text::pieces(name_lines(names), '\n') =~= names.push(Seq::empty()));
    } else {
        assert(text::pieces(name_lines(names), '\n') =~= names.push(Seq::empty()));
    }
}

proof fn lemma_pieces_grow(s: Seq<char>, t: Seq<char>)
    requires
        !t.contains('\n'),
    ensures
        ({
            let before = text::pieces(s, '\n');
            text::pieces(s + t, '\n') == before.drop_last().push(before.last() + t)
        }),
    decreases t.len(),
{
    text::lemma_pieces_nonempty(s, '\n');
    let before = text::pieces(s, '\n');
    if t.len() == 0 {
        assert(s + t =~= s);
        assert(before.last() + t =~= before.last());
        assert(before.drop_last().push(before.last() + t) =~= before);
    } else {
        let head = t.drop_last();
        assert forall|i: int| 0 <= i < head.len() implies head[i] != '\n' by {
            assert(head[i] == t[i]);
        }
        lemma_pieces_grow(s, head);
        assert((s + t).drop_last() =~= s + head);
        assert(t.contains(t.last()));
        assert(before.last() + t =~= (before.last() + head).push(t.last()));
        assert(text::pieces(s + t, '\n') =~= before.drop_last().push(before.last() + t));
    }
}

/// A read gives the text of the file, and fails where there is none to give:
/// for a directory, which the answer names, and where the disk fails, with what
/// it said.
pub proof fn read_gives_the_text(path: Seq<char>, is_dir: bool, content: Result<String, String>)
    ensures
        ({
            let r = read_answer(path, is_dir, content);
            &&& r.is_error == (is_dir || content is Err)
            &&& !r.is_error ==> Ok::<Seq<char>, Seq<char>>(r.text) == Ok::<Seq<char>, Seq<char>>(
                content->Ok_0@,
            )
            &&& is_dir ==> text::holds_text(r.text, path)
            &&& !is_dir && content is Err ==> text::finishes(r.text, content->Err_0@)
            &&& r.presentation is None
        }),
{
    let r = read_answer(path, is_dir, content);
    reveal_strlit("read failed: ");
    if is_dir {
        assert(r.text.subrange(13, 13int + path.len()) =~= path);
        assert(text::stands_at(r.text, path, 13));
    } else if content is Err {
        let e = content->Err_0@;
        assert(r.text.skip(r.text.len() - e.len()) =~= e);
    }
}

/// A write says how many bytes it wrote, and shows the path, the text before
/// and the text after; a write that failed ends with what the disk said.
pub proof fn write_shows_what_it_did(
    path: Seq<char>,
    content: Seq<char>,
    before: Option<Seq<char>>,
    written: Result<(), String>,
)
    ensures
        ({
            let r = write_answer(path, content, before, written);
            let shown = json::member_of(r.presentation, "diffs"@);
            &&& r.is_error == (written is Err)
            &&& r.presentation is Some == (written is Ok)
            &&& written is Ok ==> ({
                &&& text::number(r.text.subrange(6, r.text.len() - 6))
                    == vstd::utf8::encode_utf8(content).len()
                &&& json::member_of(r.presentation, "card"@) == Some(
                    json::JsonView::Text("diff"@),
                )
                &&& shown matches Some(json::JsonView::Array(rows)) && rows.len() == 1
                    && rows[0].member("path"@) == Some(json::JsonView::Text(path))
                    && rows[0].member("newText"@) == Some(json::JsonView::Text(content))
                    && rows[0].member("oldText"@) == Some(
                    match before {
                        Some(s) => json::JsonView::Text(s),
                        None => json::JsonView::Null,
                    },
                )
            })
            &&& written is Err ==> text::finishes(r.text, written->Err_0@)
        }),
{
    let r = write_answer(path, content, before, written);
    reveal_strlit("wrote ");
    reveal_strlit(" bytes");
    reveal_strlit("card");
    reveal_strlit("diffs");
    reveal_strlit("path");
    reveal_strlit("oldText");
    reveal_strlit("newText");
    if written is Ok {
        let n = vstd::utf8::encode_utf8(content).len();
        text::lemma_dec_reads(n);
        assert(r.text.subrange(6, r.text.len() - 6) =~= text::dec(n));
        let pairs = diff_card(path, before, content)->Object_0;
        assert("card"@.len() == 4 && "diffs"@.len() == 5 && "path"@.len() == 4);
        assert("oldText"@[0] == 'o' && "newText"@[0] == 'n' && "oldText"@.len() == 7);
        json::first_pair_with_the_key_counts(pairs, "card"@, 0);
        json::first_pair_with_the_key_counts(pairs, "diffs"@, 1);
        let row = diff_row(path, before, content)->Object_0;
        json::first_pair_with_the_key_counts(row, "path"@, 0);
        json::first_pair_with_the_key_counts(row, "oldText"@, 1);
        json::first_pair_with_the_key_counts(row, "newText"@, 2);
    } else {
        let e = written->Err_0@;
        assert(r.text.skip(r.text.len() - e.len()) =~= e);
    }
}

/// A listing that failed ends with what the disk said.
pub proof fn failed_listing_says_why(e: String)
    ensures
        list_answer(Err(e)).is_error,
        text::finishes(list_answer(Err(e)).text, e@),
{
    let r = list_answer(Err(e));
    assert(r.text.skip(r.text.len() - e@.len()) =~= e@);
}

proof fn lemma_op_names()
    ensures
        "read"@ != "write"@,
        "read"@ != "list"@,
        "read"@ != "exists"@,
        "write"@ != "list"@,
        "write"@ != "exists"@,
        "list"@ != "exists"@,
{
    reveal_strlit("read");
    reveal_strlit("write");
    reveal_strlit("list");
    reveal_strlit("exists");
    assert("read"@[0] == 'r' && "write"@[0] == 'w' && "list"@[0] == 'l' && "exists"@[0] == 'e');
}

/// What is done is what was asked for and allowed: each of the four operations
/// is carried out exactly where its name is given for a path and the policy
/// agrees, a refusal gives the policy's reason, and the policy is not blamed
/// for anything else.
pub proof fn plan_follows_the_request(
    op: Seq<char>,
    path: Seq<char>,
    read_ok: bool,
    write_ok: bool,
    reason: Seq<char>,
)
    ensures
        ({
            let r = plan_of(op, path, read_ok, write_ok, reason);
            let named = path.len() > 0;
            &&& r == Ok::<FsAction, Seq<char>>(FsAction::Read) <==> named && op == "read"@
                && read_ok
            &&& r == Ok::<FsAction, Seq<char>>(FsAction::List) <==> named && op == "list"@
                && read_ok
            &&& r == Ok::<FsAction, Seq<char>>(FsAction::Exists) <==> named && op == "exists"@
                && read_ok
            &&& r == Ok::<FsAction, Seq<char>>(FsAction::Write) <==> named && op == "write"@
                && write_ok
            &&& named && (op == "read"@ || op == "list"@ || op == "exists"@) && !read_ok
                ==> r == Err::<FsAction, Seq<char>>(reason)
            &&& named && op == "write"@ && !write_ok ==> r == Err::<FsAction, Seq<char>>(reason)
            &&& named && op != "read"@ && op != "list"@ && op != "exists"@ && op != "write"@
                ==> r is Err && text::holds_text(r->Err_0, op)
        }),
{
    lemma_op_names();
    reveal_strlit("unknown op \"");
    let r = plan_of(op, path, read_ok, write_ok, reason);
    if path.len() > 0 && op != "read"@ && op != "list"@ && op != "exists"@ && op != "write"@ {
        assert(r->Err_0.subrange(12, 12int + op.len()) =~= op);
        assert(text::stands_at(r->Err_0, op, 12));
    }
}

/// A path lies below a root exactly where it starts with every component of
/// it: the root itself does, and what is added to it; a name that only starts
/// like one of the root's does not.
pub proof fn below_goes_by_whole_components(
    path: Seq<PartView>,
    root: Seq<PartView>,
    rest: Seq<PartView>,
)
    ensures
        below(root + rest, root),
        below(path, root) <==> root.len() <= path.len() && forall|i: int|
            0 <= i < root.len() ==> path[i] == #[trigger] root[i],
{
    assert((root + rest).take(root.len() as int) =~= root);
    if root.len() <= path.len() && forall|i: int|
        0 <= i < root.len() ==> path[i] == #[trigger] root[i] {
        assert(path.take(root.len() as int) =~= root);
    }
    if below(path, root) {
        assert forall|i: int| 0 <= i < root.len() implies path[i] == #[trigger] root[i] by {
            assert(path.take(root.len() as int)[i] == path[i]);
        }
    }
}

/// Whatever lies below a root of the workspace may be written, the root itself
/// among it.
pub proof fn workspace_is_writable(
    roots: Seq<Seq<char>>,
    path: Seq<char>,
    d: DiskView,
    i: int,
)
    requires
        0 <= i < roots.len(),
        real_of(d, path) is Some,
        real_of(d, roots[i]) is Some,
        below(real_of(d, path)->0, real_of(d, roots[i])->0),
    ensures
        mode_allows(FsMode::WorkspaceWrite, roots, path, d),
{
}

/// A path that the disk knows is where the disk says, whatever its components.
pub proof fn known_path_is_where_the_disk_says(p: ProbeView)
    requires
        p.reals.len() > 0,
        p.reals[0] is Some,
    ensures
        real_path(p) == p.reals[0]->0,
{
    assert(p.parts.skip(p.parts.len() as int) =~= Seq::empty());
}

/// Names and the root are walked one by one; `.` leads nowhere.
pub proof fn names_lead_down(path: Seq<PartView>, parts: Seq<PartView>)
    requires
        forall|i: int| 0 <= i < parts.len() ==> (#[trigger] parts[i]) is Name,
    ensures
        walked(path, parts) == path + parts,
        walked(path, parts.push(PartView::Current)) == path + parts,
    decreases parts.len(),
{
    if parts.len() > 0 {
        names_lead_down(path, parts.drop_last());
        assert(walked(path, parts) =~= path + parts);
    } else {
        assert(path + parts =~= path);
    }
    assert(parts.push(PartView::Current).drop_last() =~= parts);
    assert(walked(path, parts.push(PartView::Current)) == stepped(
        walked(path, parts),
        PartView::Current,
    ));
    assert(walked(path, parts) =~= path + parts);
}

/// A leading `~` stands for the home folder and for nothing else.
pub proof fn only_a_tilde_is_home(home: Seq<char>, rest: Seq<char>, path: Seq<char>)
    ensures
        home_expanded("~/"@ + rest, Some(home)) == home + "/"@ + rest,
        home_expanded("~"@, Some(home)) == home,
        path.len() == 0 || path[0] != '~' ==> home_expanded(path, Some(home)) == path,
        path.len() > 1 && path[1] != '/' ==> home_expanded(path, Some(home)) == path,
        home_expanded(path, None) == path,
{
    reveal_strlit("~/");
    reveal_strlit("~");
    let s = "~/"@ + rest;
    assert(s.take(2) =~= "~/"@);
    assert(s.skip(2) =~= rest);
    if text::begins(path, "~/"@) {
        assert(path.take(2)[0] == path[0] && path.take(2)[1] == path[1]);
    }
    assert("~"@.len() == 1);
}

/// The model is told of every operation that the tool carries out and of no
/// other, and of each member that a request is read from.
pub proof fn schema_names_what_the_tool_does(op: Seq<char>, path: Seq<char>, reason: Seq<char>)
    requires
        path.len() > 0,
    ensures
        ({
            let args = fs_schema().member("properties"@);
            let ops = json::text_list(json::member_of(json::member_of(args, "op"@), "enum"@));
            &&& ops.contains(op) <==> plan_of(op, path, true, true, reason) is Ok
            &&& json::member_of(args, "path"@) is Some
            &&& json::member_of(args, "content"@) is Some
            &&& json::text_list(fs_schema().member("required"@)).contains("path"@)
            &&& json::text_list(fs_schema().member("required"@)).contains("op"@)
        }),
{
    lemma_op_names();
    reveal_strlit("type");
    reveal_strlit("properties");
    reveal_strlit("required");
    reveal_strlit("op");
    reveal_strlit("path");
    reveal_strlit("content");
    reveal_strlit("enum");
    assert("type"@[0] == 't' && "enum"@[0] == 'e');
    assert("properties"@.len() == 10 && "required"@.len() == 8 && "type"@.len() == 4);
    assert("op"@.len() == 2 && "path"@.len() == 4 && "content"@.len() == 7);
    let top = fs_schema()->Object_0;
    json::first_pair_with_the_key_counts(top, "properties"@, 1);
    json::first_pair_with_the_key_counts(top, "required"@, 2);
    let args = top[1].1->Object_0;
    json::first_pair_with_the_key_counts(args, "op"@, 0);
    json::first_pair_with_the_key_counts(args, "path"@, 1);
    json::first_pair_with_the_key_counts(args, "content"@, 2);
    json::first_pair_with_the_key_counts(args[0].1->Object_0, "enum"@, 1);
    let ops = seq!["read"@, "write"@, "list"@, "exists"@];
    json::lemma_texts_of_array(ops);
    assert(ops[0] == "read"@ && ops[1] == "write"@ && ops[2] == "list"@ && ops[3] == "exists"@);
    let needed = seq!["op"@, "path"@];
    json::lemma_texts_of_array(needed);
    assert(needed[0] == "op"@ && needed[1] == "path"@);
}

} // verus!
