//! Workspace file tree: directory levels, paths below the workspace root and
//! pages of text.

use crate::natural::{natural_rank, Rank};
use crate::natural;
use crate::text;
use vstd::prelude::*;

verus! {

/// What a directory entry is.
#[derive(Clone, Copy, Debug, PartialEq, Eq, Structural)]
pub enum DirEntryKind {
    File,
    Directory,
    Other,
}

/// An entry of a directory; a file may carry its size in bytes.
#[derive(Clone, Debug)]
pub struct DirEntry {
    pub name: String,
    pub kind: DirEntryKind,
    pub size: Option<u64>,
}

/// The contents of one directory.
#[derive(Clone, Debug)]
pub struct DirLevel {
    pub entries: Vec<DirEntry>,
    /// Whether entries are missing because the limit was reached.
    pub truncated: bool,
}

/// Why a directory could not be listed.
#[derive(Clone, Copy, Debug, PartialEq, Eq, Structural)]
pub enum FilesErrorKind {
    NotFound,
    OutsideWorkspace,
    NotDirectory,
    Unavailable,
}

/// The bytes of a name.
pub open spec fn name_bytes(e: DirEntry) -> Seq<u8> {
    vstd::utf8::encode_utf8(e.name@)
}

/// How entry `l` stands to entry `r`: directories first, then by name in
/// natural order.
pub open spec fn entry_rank(l: DirEntry, r: DirEntry) -> Rank {
    if l.kind is Directory && !(r.kind is Directory) {
        Rank::Before
    } else if !(l.kind is Directory) && r.kind is Directory {
        Rank::After
    } else {
        natural::natural(name_bytes(l), name_bytes(r))
    }
}

/// Whether no entry stands before one that it ranks after.
pub open spec fn in_order(s: Seq<DirEntry>) -> bool {
    forall|i: int, j: int|
        0 <= i < j < s.len() ==> entry_rank(#[trigger] s[i], #[trigger] s[j]) != Rank::After
}

/// The entries of `s` that rank the same as `k`, in the order they stand in.
pub open spec fn peers(s: Seq<DirEntry>, k: DirEntry) -> Seq<DirEntry> {
    s.filter(|e: DirEntry| entry_rank(e, k) == Rank::Same)
}

/// `s`, in order, with `e` behind every entry that does not rank after it.
pub open spec fn entry_placed(s: Seq<DirEntry>, e: DirEntry) -> Seq<DirEntry>
    decreases s.len(),
{
    if s.len() == 0 || entry_rank(s.last(), e) != Rank::After {
        s.push(e)
    } else {
        entry_placed(s.drop_last(), e).push(s.last())
    }
}

/// The entries in order; those that rank the same stay as they were.
pub open spec fn ordered(s: Seq<DirEntry>) -> Seq<DirEntry>
    decreases s.len(),
{
    if s.len() == 0 {
        Seq::empty()
    } else {
        entry_placed(ordered(s.drop_last()), s.last())
    }
}

proof fn lemma_entry_placed(s: Seq<DirEntry>, e: DirEntry, p: int)
    requires
        0 <= p <= s.len(),
        p > 0 ==> entry_rank(s[p - 1], e) != Rank::After,
        forall|q: int| p <= q < s.len() ==> entry_rank(#[trigger] s[q], e) == Rank::After,
    ensures
        entry_placed(s, e) == s.insert(p, e),
    decreases s.len(),
{
    if p == s.len() {
        assert(s.push(e) =~= s.insert(p, e));
    } else {
        let head = s.drop_last();
        assert forall|q: int| p <= q < head.len() implies entry_rank(#[trigger] head[q], e)
            == Rank::After by {
            assert(head[q] == s[q]);
        }
        assert(entry_rank(s[s.len() - 1], e) == Rank::After);
        lemma_entry_placed(head, e, p);
        assert(head.insert(p, e).push(s.last()) =~= s.insert(p, e));
    }
}

proof fn lemma_rank_transitive(a: DirEntry, b: DirEntry, c: DirEntry)
    requires
        entry_rank(a, b) != Rank::After,
        entry_rank(b, c) != Rank::After,
    ensures
        entry_rank(a, c) != Rank::After,
{
    if (a.kind is Directory) == (b.kind is Directory) && (b.kind is Directory) == (
    c.kind is Directory) {
        natural::natural_transitive(name_bytes(a), name_bytes(b), name_bytes(c));
    }
}

proof fn lemma_rank_flip(a: DirEntry, b: DirEntry)
    ensures
        entry_rank(b, a) == natural::flipped(entry_rank(a, b)),
{
    natural::natural_antisymmetric(name_bytes(a), name_bytes(b));
}

proof fn lemma_peers_split(s: Seq<DirEntry>, p: int, k: DirEntry)
    requires
        0 <= p <= s.len(),
    ensures
        peers(s, k) == peers(s.take(p), k) + peers(s.skip(p), k),
{
    let f = |e: DirEntry| entry_rank(e, k) == Rank::Same;
    assert(s =~= s.take(p) + s.skip(p));
    Seq::filter_distributes_over_add(s.take(p), s.skip(p), f);
}

proof fn lemma_peers_none(s: Seq<DirEntry>, k: DirEntry)
    requires
        forall|i: int| 0 <= i < s.len() ==> entry_rank(#[trigger] s[i], k) != Rank::Same,
    ensures
        peers(s, k) == Seq::<DirEntry>::empty(),
    decreases s.len(),
{
    reveal(Seq::filter);
    if s.len() > 0 {
        lemma_peers_none(s.drop_last(), k);
        assert(entry_rank(s[s.len() - 1], k) != Rank::Same);
    }
    assert(peers(s, k) =~= Seq::<DirEntry>::empty());
}

proof fn lemma_peers_single(e: DirEntry, k: DirEntry)
    ensures
        peers(seq![e], k) == (if entry_rank(e, k) == Rank::Same {
            seq![e]
        } else {
            Seq::<DirEntry>::empty()
        }),
{
    reveal_with_fuel(Seq::filter, 2);
    assert(seq![e].drop_last() =~= Seq::<DirEntry>::empty());
    assert(peers(seq![e], k) =~= (if entry_rank(e, k) == Rank::Same {
        seq![e]
    } else {
        Seq::<DirEntry>::empty()
    }));
}

/// Putting `e` behind everything that does not rank after it keeps the order
/// of its peers, and adds it as the last of them.
proof fn lemma_insert_peers(s: Seq<DirEntry>, p: int, e: DirEntry, k: DirEntry)
    requires
        0 <= p <= s.len(),
        forall|i: int| p <= i < s.len() ==> entry_rank(#[trigger] s[i], e) == Rank::After,
    ensures
        peers(s.insert(p, e), k) == peers(s, k) + peers(seq![e], k),
{
    let t = s.insert(p, e);
    lemma_peers_split(t, p, k);
    lemma_peers_split(t.skip(p), 1, k);
    lemma_peers_split(s, p, k);
    assert(t.take(p) =~= s.take(p));
    assert(t.skip(p).take(1) =~= seq![e]);
    assert(t.skip(p).skip(1) =~= s.skip(p));
    lemma_peers_single(e, k);
    if entry_rank(e, k) == Rank::Same {
        let rest = s.skip(p);
        assert forall|i: int| 0 <= i < rest.len() implies entry_rank(#[trigger] rest[i], k)
            != Rank::Same by {
            let x = s[p + i];
            assert(entry_rank(x, e) == Rank::After);
            if entry_rank(x, k) == Rank::Same {
                lemma_rank_flip(e, k);
                lemma_rank_transitive(x, k, e);
            }
        }
        lemma_peers_none(rest, k);
    }
    assert(peers(t, k) =~= peers(s, k) + peers(seq![e], k));
}

/// A copy of an entry.
pub fn copy_entry(e: &DirEntry) -> (r: DirEntry)
    ensures
        r == *e,
{
    DirEntry { name: e.name.clone(), kind: e.kind, size: e.size }
}

fn is_directory(k: DirEntryKind) -> (r: bool)
    ensures
        r == (k is Directory),
{
    match k {
        DirEntryKind::Directory => true,
        _ => false,
    }
}

fn rank_entries(l: &DirEntry, r: &DirEntry) -> (k: Rank)
    ensures
        k == entry_rank(*l, *r),
{
    let ld: bool = is_directory(l.kind);
    let rd: bool = is_directory(r.kind);
    if ld && !rd {
        Rank::Before
    } else if !ld && rd {
        Rank::After
    } else {
        natural_rank(l.name.as_str(), r.name.as_str())
    }
}

/// The entries with directories first, each group in natural order; entries
/// that rank the same keep the order they came in.
#[verifier::rlimit(40)]
#[verifier::spinoff_prover]
pub fn order_entries(entries: &[DirEntry]) -> (r: Vec<DirEntry>)
    ensures
        in_order(r@),
        r@.to_multiset() == entries@.to_multiset(),
        forall|k: DirEntry| #[trigger] peers(r@, k) == peers(entries@, k),
        r@ == ordered(entries@),
{
    let mut r: Vec<DirEntry> = Vec::new();
    let mut i: usize = 0;
    assert(entries@.take(0) =~= Seq::<DirEntry>::empty());
    while i < entries.len()
        invariant
            i <= entries@.len(),
            in_order(r@),
            r@.to_multiset() == entries@.take(i as int).to_multiset(),
            forall|k: DirEntry| #[trigger] peers(r@, k) == peers(entries@.take(i as int), k),
            r@ == ordered(entries@.take(i as int)),
        decreases entries@.len() - i,
    {
        let e: DirEntry = copy_entry(&entries[i]);
        let mut p: usize = r.len();
        let mut behind: bool = true;
        while p > 0 && behind
            invariant
                p <= r@.len(),
                in_order(r@),
                e == entries@[i as int],
                forall|q: int| p <= q < r@.len() ==> entry_rank(#[trigger] r@[q], e) == Rank::After,
                !behind ==> p > 0 && entry_rank(r@[p - 1], e) != Rank::After,
            decreases p + (if behind { 1int } else { 0int }),
        {
            match rank_entries(&r[p - 1], &e) {
                Rank::After => {
                    p = p - 1;
                },
                _ => {
                    behind = false;
                },
            }
        }
        let ghost before = r@;
        let ghost head = entries@.take(i as int);
        let ghost next = entries@.take(i + 1);
        proof {
            assert(next =~= head.push(e));
            assert(next.drop_last() =~= head);
            lemma_entry_placed(before, e, p as int);
            vstd::seq_lib::to_multiset_insert(before, p as int, e);
            vstd::seq_lib::to_multiset_build(head, e);
            assert forall|k: DirEntry| #[trigger] peers(before.insert(p as int, e), k) == peers(
                next,
                k,
            ) by {
                lemma_insert_peers(before, p as int, e, k);
                lemma_peers_split(next, head.len() as int, k);
                assert(next.take(head.len() as int) =~= head);
                assert(next.skip(head.len() as int) =~= seq![e]);
                assert(peers(before, k) == peers(head, k));
            }
            assert forall|a: int, b: int| 0 <= a < b < before.len() + 1 implies entry_rank(
                #[trigger] before.insert(p as int, e)[a],
                #[trigger] before.insert(p as int, e)[b],
            ) != Rank::After by {
                if b == p {
                    if p >= 1 && a < p - 1 {
                        lemma_rank_transitive(before[a], before[p - 1], e);
                    }
                } else if a == p {
                    lemma_rank_flip(before[b - 1], e);
                }
            }
        }
        r.insert(p, e);
        i = i + 1;
    }
    assert(entries@.take(i as int) =~= entries@);
    r
}

// ---------------------------------------------------------------------------
// failure lines
// ---------------------------------------------------------------------------

/// The line shown for a directory that could not be listed.
pub open spec fn files_failure_text(kind: FilesErrorKind, message: Seq<char>) -> Seq<char> {
    match kind {
        FilesErrorKind::NotFound => "这个目录不在了。可能已被移动或删除。"@,
        FilesErrorKind::OutsideWorkspace => "这个目录在工作区之外，侧栏不会读取它。"@,
        FilesErrorKind::NotDirectory => "这不是一个目录。"@,
        FilesErrorKind::Unavailable => "读取失败："@ + message,
    }
}

/// The line shown for a directory that could not be listed.
pub fn files_failure_line(kind: FilesErrorKind, message: &str) -> (r: String)
    ensures
        r@ == files_failure_text(kind, message@),
{
    match kind {
        FilesErrorKind::NotFound => "这个目录不在了。可能已被移动或删除。".to_owned(),
        FilesErrorKind::OutsideWorkspace => "这个目录在工作区之外，侧栏不会读取它。".to_owned(),
        FilesErrorKind::NotDirectory => "这不是一个目录。".to_owned(),
        FilesErrorKind::Unavailable => text::concat2("读取失败：", message),
    }
}

/// Why a file could not be shown.
#[derive(Clone, Debug, PartialEq, Eq)]
pub enum PreviewErrorKind {
    NotFound,
    TooLarge { limit: u64 },
    NotText,
    NotRegularFile,
    OutsideWorkspace,
    Unavailable(String),
}

/// A number of bytes in whole megabytes, kilobytes or bytes.
pub open spec fn human_text(bytes: u64) -> Seq<char> {
    if bytes >= 1048576 {
        text::dec((bytes / 1048576) as nat) + " MB"@
    } else if bytes >= 1024 {
        text::dec((bytes / 1024) as nat) + " KB"@
    } else {
        text::dec(bytes as nat) + " B"@
    }
}

/// A number of bytes in whole megabytes, kilobytes or bytes.
pub fn human_bytes(bytes: u64) -> (r: String)
    ensures
        r@ == human_text(bytes),
{
    if bytes >= 1048576 {
        text::decimal(bytes / 1048576).concat(" MB")
    } else if bytes >= 1024 {
        text::decimal(bytes / 1024).concat(" KB")
    } else {
        text::decimal(bytes).concat(" B")
    }
}

/// The line shown for a file that could not be shown.
pub open spec fn preview_failure_text(kind: PreviewErrorKind) -> Seq<char> {
    match kind {
        PreviewErrorKind::NotFound => "文件不存在，可能已被移动或删除。"@,
        PreviewErrorKind::TooLarge { limit } => "单页内容超过 "@ + human_text(limit)
            + " 上限，无法读取。"@,
        PreviewErrorKind::NotText => "非文本文件，暂时无法预览。"@,
        PreviewErrorKind::NotRegularFile => "该路径不是普通文件，没有可显示的内容。"@,
        PreviewErrorKind::OutsideWorkspace => "这个文件在工作区之外，侧栏不会读取它。"@,
        PreviewErrorKind::Unavailable(message) => "读取失败："@ + message@,
    }
}

/// The line shown for a file that could not be shown.
pub fn preview_failure_line(kind: &PreviewErrorKind) -> (r: String)
    ensures
        r@ == preview_failure_text(*kind),
{
    match kind {
        PreviewErrorKind::NotFound => "文件不存在，可能已被移动或删除。".to_owned(),
        PreviewErrorKind::TooLarge { limit } => {
            let size: String = human_bytes(*limit);
            text::concat3("单页内容超过 ", size.as_str(), " 上限，无法读取。")
        },
        PreviewErrorKind::NotText => "非文本文件，暂时无法预览。".to_owned(),
        PreviewErrorKind::NotRegularFile => "该路径不是普通文件，没有可显示的内容。".to_owned(),
        PreviewErrorKind::OutsideWorkspace => "这个文件在工作区之外，侧栏不会读取它。".to_owned(),
        PreviewErrorKind::Unavailable(message) => text::concat2("读取失败：", message.as_str()),
    }
}

// ---------------------------------------------------------------------------
// paths
// ---------------------------------------------------------------------------

/// The two path separators.
pub open spec fn separators() -> Seq<char> {
    seq!['/', '\\']
}

/// The key of entry `name` below `parent`.
pub open spec fn child_key(parent: Seq<char>, name: Seq<char>) -> Seq<char> {
    text::stripped_end(parent, separators()) + "/"@ + name
}

/// The key of entry `name` below `parent`: one `/` between the two, whatever
/// separators `parent` ends with.
pub fn child_path(parent: &str, name: &str) -> (r: String)
    ensures
        r@ == child_key(parent@, name@),
{
    let set: [char; 2] = ['/', '\\'];
    let base: String = text::strip_end(parent, &set);
    assert(set@ =~= separators());
    text::concat3(base.as_str(), "/", name)
}

/// `c` with a backslash turned into a slash.
pub open spec fn slash(c: char) -> char {
    if c == '\\' {
        '/'
    } else {
        c
    }
}

/// `t` without the slashes it ends with, but never without its first
/// character.
pub open spec fn without_tail(t: Seq<char>) -> Seq<char>
    decreases t.len(),
{
    if t.len() > 1 && t.last() == '/' {
        without_tail(t.drop_last())
    } else {
        t
    }
}

/// The form in which two paths are held against each other: slashes, no
/// trailing slash, ASCII letters in lower case.
pub open spec fn normal_path(s: Seq<char>) -> Seq<char> {
    text::lowered(without_tail(s.map_values(|c: char| slash(c))))
}

/// What every path below a normalized root begins with: the root and a slash,
/// where it does not end with one.
pub open spec fn edge_of(r: Seq<char>) -> Seq<char> {
    if r.len() > 0 && r.last() == '/' {
        r
    } else {
        r + "/"@
    }
}

/// Whether `path` is `root` or lies below it.
pub open spec fn inside_root(root: Seq<char>, path: Seq<char>) -> bool {
    let r = normal_path(root);
    let p = normal_path(path);
    p == r || text::begins(p, edge_of(r))
}

fn normalize(s: &str) -> (r: String)
    ensures
        r@ == normal_path(s@),
{
    let v: Vec<char> = text::chars_of(s);
    let mut w: Vec<char> = Vec::new();
    let mut i: usize = 0;
    let ghost full = s@.map_values(|c: char| slash(c));
    while i < v.len()
        invariant
            i <= v@.len(),
            v@ == s@,
            full == s@.map_values(|c: char| slash(c)),
            w@ == full.take(i as int),
        decreases v@.len() - i,
    {
        let c: char = if v[i] == '\\' { '/' } else { v[i] };
        w.push(c);
        i = i + 1;
        assert(w@ =~= full.take(i as int));
    }
    assert(full.take(i as int) =~= full);
    let mut n: usize = w.len();
    while n > 1 && w[n - 1] == '/'
        invariant
            n <= w@.len(),
            w@ == full,
            without_tail(full) == without_tail(full.take(n as int)),
        decreases n,
    {
        assert(full.take(n as int).drop_last() =~= full.take(n - 1));
        n = n - 1;
    }
    let t: String = text::text_between(w.as_slice(), 0, n);
    assert(t@ =~= full.take(n as int));
    text::lower_text(t.as_str())
}

/// Whether `path` is `root` or lies below it.
pub fn within_root(root: &str, path: &str) -> (r: bool)
    ensures
        r == inside_root(root@, path@),
{
    let a: String = normalize(root);
    let b: String = normalize(path);
    if text::same(b.as_str(), a.as_str()) {
        return true;
    }
    proof {
        reveal_strlit("/");
        let r = a@;
        if r.len() > 0 {
            let end = r.skip(r.len() - 1);
            assert(end[0] == r.last());
            if r.last() == '/' {
                assert(end =~= "/"@);
            }
        }
    }
    if text::ends_with(a.as_str(), "/") {
        return text::starts_with(b.as_str(), a.as_str());
    }
    let edge: String = a.concat("/");
    text::starts_with(b.as_str(), edge.as_str())
}

/// Every path lies within itself.
pub proof fn root_is_within_itself(root: Seq<char>)
    ensures
        inside_root(root, root),
{
}

proof fn lemma_without_tail_front(base: Seq<char>, tail: Seq<char>)
    requires
        base.len() >= 1,
        base.last() != '/',
    ensures
        without_tail(base + tail) == base || (without_tail(base + tail).len() > base.len()
            && without_tail(base + tail).take(base.len() as int) == base && (tail.len() > 0
            && tail[0] == '/' ==> without_tail(base + tail)[base.len() as int] == '/')),
        without_tail(base) == base,
        (forall|i: int| 0 <= i < tail.len() ==> tail[i] == '/') ==> without_tail(base + tail)
            == base,
    decreases tail.len(),
{
    let t = base + tail;
    if tail.len() == 0 {
        assert(t =~= base);
    } else if t.last() == '/' {
        assert(t.drop_last() =~= base + tail.drop_last());
        lemma_without_tail_front(base, tail.drop_last());
    } else {
        assert(tail.last() == t.last());
        assert(t.take(base.len() as int) =~= base);
    }
}

proof fn lemma_stripped_shape(s: Seq<char>, set: Seq<char>)
    ensures
        text::stripped_end(s, set).len() <= s.len(),
        s.take(text::stripped_end(s, set).len() as int) == text::stripped_end(s, set),
        text::stripped_end(s, set).len() > 0 ==> !set.contains(text::stripped_end(s, set).last()),
        forall|i: int|
            text::stripped_end(s, set).len() <= i < s.len() ==> set.contains(#[trigger] s[i]),
    decreases s.len(),
{
    if s.len() > 0 && set.contains(s.last()) {
        lemma_stripped_shape(s.drop_last(), set);
        let k = text::stripped_end(s, set).len() as int;
        assert(s.take(k) =~= s.drop_last().take(k));
        assert forall|i: int| k <= i < s.len() implies set.contains(#[trigger] s[i]) by {
            if i < s.len() - 1 {
                assert(s[i] == s.drop_last()[i]);
            }
        }
    } else {
        assert(s.take(s.len() as int) =~= s);
    }
}

/// A text of separators alone, normalized, is a slash or nothing.
proof fn lemma_bare_root(t: Seq<char>)
    requires
        forall|i: int| 0 <= i < t.len() ==> t[i] == '/',
    ensures
        t.len() == 0 ==> without_tail(t) == t,
        t.len() > 0 ==> without_tail(t) == seq!['/'],
    decreases t.len(),
{
    if t.len() > 1 {
        lemma_bare_root(t.drop_last());
    } else if t.len() == 1 {
        assert(t =~= seq!['/']);
    }
}

proof fn lemma_first_kept(t: Seq<char>)
    requires
        t.len() > 0,
    ensures
        without_tail(t).len() > 0,
        without_tail(t)[0] == t[0],
    decreases t.len(),
{
    if t.len() > 1 && t.last() == '/' {
        lemma_first_kept(t.drop_last());
    }
}

/// An entry below a root is within the root.
pub proof fn child_is_within_root(root: Seq<char>, name: Seq<char>)
    ensures
        inside_root(root, child_key(root, name)),
{
    reveal_strlit("/");
    let f = |c: char| slash(c);
    let bare = text::stripped_end(root, separators());
    lemma_stripped_shape(root, separators());
    let base = bare.map_values(f);
    assert(separators()[0] == '/' && separators()[1] == '\\');
    let tail = root.skip(bare.len() as int).map_values(f);
    assert(root.map_values(f) =~= base + tail);
    assert forall|i: int| 0 <= i < tail.len() implies tail[i] == '/' by {
        assert(separators().contains(root[bare.len() + i]));
    }
    let low = (seq!['/'] + name).map_values(f);
    assert("/"@ =~= seq!['/']);
    assert(child_key(root, name).map_values(f) =~= base + low);
    assert(low[0] == '/');
    let w = without_tail(base + low);
    let p = text::lowered(w);
    assert(normal_path(child_key(root, name)) == p);
    assert(text::lower_ascii('/') == '/');
    if bare.len() == 0 {
        assert(base + tail =~= tail);
        assert(base + low =~= low);
        lemma_bare_root(tail);
        lemma_first_kept(low);
        assert(edge_of(normal_path(root)) =~= seq!['/']) by {
            assert(text::lowered(seq!['/']) =~= seq!['/']);
            assert(text::lowered(tail) =~= tail || tail.len() > 0);
        }
        assert(p.take(1) =~= seq!['/']);
    } else {
        assert(base.last() == slash(bare.last()));
        assert(base.last() != '/');
        lemma_without_tail_front(base, tail);
        let r = normal_path(root);
        assert(r == text::lowered(base));
        assert(r.last() == text::lower_ascii(base.last()));
        assert(r.last() != '/');
        lemma_without_tail_front(base, low);
        if w != base {
            let n = base.len() as int;
            let edge = r + "/"@;
            assert forall|i: int| 0 <= i < n implies w[i] == base[i] by {
                assert(w.take(n)[i] == base[i]);
            }
            assert(p.take(edge.len() as int) =~= edge);
        }
    }
}

// ---------------------------------------------------------------------------
// directory levels
// ---------------------------------------------------------------------------

/// The number of entries of a level that are shown.
pub const DIR_MAX_ENTRIES: usize = 2000;

/// Why a path could not be resolved.
pub struct PathFault {
    /// Whether nothing is at the path.
    pub missing: bool,
    pub message: String,
}

/// One item met while a directory is read.
pub enum DirItem {
    /// The item could not be read at all.
    Unreadable,
    /// An item with its kind, or the reason why the kind is unknown; `size` is
    /// what the file system gives for the item.
    Entry { name: String, kind: Result<DirEntryKind, String>, size: Option<u64> },
}

/// The entry shown for an item: only files carry a size.
pub open spec fn shown_entry(name: String, kind: DirEntryKind, size: Option<u64>) -> DirEntry {
    DirEntry {
        name,
        kind,
        size: if kind is File {
            size
        } else {
            None
        },
    }
}

/// What the items from `at` on add to the entries `done`: the entries and
/// whether some are missing, or the reason why an item's kind is unknown.
pub open spec fn level_from(items: Seq<DirItem>, at: int, done: Seq<DirEntry>) -> Result<
    (Seq<DirEntry>, bool),
    String,
>
    decreases items.len() - at,
{
    if at < 0 || at >= items.len() {
        Ok((done, false))
    } else if done.len() >= DIR_MAX_ENTRIES {
        Ok((done, true))
    } else {
        match items[at] {
            DirItem::Unreadable => level_from(items, at + 1, done),
            DirItem::Entry { name, kind: Ok(kind), size } => level_from(
                items,
                at + 1,
                done.push(shown_entry(name, kind, size)),
            ),
            DirItem::Entry { name, kind: Err(message), size } => Err(message),
        }
    }
}

/// Why a directory is not looked at, given the resolved root and path.
pub open spec fn listing_fenced(root: Result<String, String>, path: Result<String, PathFault>) -> Option<
    (FilesErrorKind, Seq<char>),
> {
    match (root, path) {
        (Err(message), _) => Some((FilesErrorKind::Unavailable, message@)),
        (Ok(_), Err(fault)) => if fault.missing {
            Some((FilesErrorKind::NotFound, Seq::empty()))
        } else {
            Some((FilesErrorKind::Unavailable, fault.message@))
        },
        (Ok(root), Ok(path)) => if inside_root(root@, path@) {
            None
        } else {
            Some((FilesErrorKind::OutsideWorkspace, Seq::empty()))
        },
    }
}

/// Why what stands at a path is not listed.
pub open spec fn unlisted(is_dir: Result<bool, String>) -> Option<(FilesErrorKind, Seq<char>)> {
    match is_dir {
        Err(message) => Some((FilesErrorKind::Unavailable, message@)),
        Ok(false) => Some((FilesErrorKind::NotDirectory, Seq::empty())),
        Ok(true) => None,
    }
}

/// The outcome of listing a directory, given what the file system answers: the
/// resolved root, the resolved path, whether it is a directory, and its items.
/// What comes first decides first.
pub open spec fn listing(
    root: Result<String, String>,
    path: Result<String, PathFault>,
    is_dir: Result<bool, String>,
    items: Result<Vec<DirItem>, String>,
) -> Result<(Seq<DirEntry>, bool), (FilesErrorKind, Seq<char>)> {
    match listing_fenced(root, path) {
        Some(fault) => Err(fault),
        None => match unlisted(is_dir) {
            Some(fault) => Err(fault),
            None => match items {
                Err(message) => Err((FilesErrorKind::Unavailable, message@)),
                Ok(items) => match level_from(items@, 0, Seq::empty()) {
                    Ok(level) => Ok(level),
                    Err(message) => Err((FilesErrorKind::Unavailable, message@)),
                },
            },
        },
    }
}

/// What a fault says.
pub open spec fn fault_view(r: Option<(FilesErrorKind, String)>) -> Option<
    (FilesErrorKind, Seq<char>),
> {
    match r {
        Some((kind, message)) => Some((kind, message@)),
        None => None,
    }
}

/// Why a directory is not looked at, once root and path were resolved; nothing
/// where it may be.
pub fn fence_listing(root: &Result<String, String>, path: &Result<String, PathFault>) -> (r: Option<
    (FilesErrorKind, String),
>)
    ensures
        fault_view(r) == listing_fenced(*root, *path),
{
    match root {
        Err(message) => Some((FilesErrorKind::Unavailable, message.clone())),
        Ok(root) => match path {
            Err(fault) => {
                if fault.missing {
                    Some((FilesErrorKind::NotFound, String::new()))
                } else {
                    Some((FilesErrorKind::Unavailable, fault.message.clone()))
                }
            },
            Ok(path) => {
                if within_root(root.as_str(), path.as_str()) {
                    None
                } else {
                    Some((FilesErrorKind::OutsideWorkspace, String::new()))
                }
            },
        },
    }
}

/// Why what stands at a path is not listed; nothing where it is a directory.
pub fn refuse_listing(is_dir: &Result<bool, String>) -> (r: Option<(FilesErrorKind, String)>)
    ensures
        fault_view(r) == unlisted(*is_dir),
{
    match is_dir {
        Err(message) => Some((FilesErrorKind::Unavailable, message.clone())),
        Ok(is_dir) => {
            if *is_dir {
                None
            } else {
                Some((FilesErrorKind::NotDirectory, String::new()))
            }
        },
    }
}

/// What a listing holds.
pub open spec fn listed(r: Result<DirLevel, (FilesErrorKind, String)>) -> Result<
    (Seq<DirEntry>, bool),
    (FilesErrorKind, Seq<char>),
> {
    match r {
        Ok(level) => Ok((level.entries@, level.truncated)),
        Err((kind, message)) => Err((kind, message@)),
    }
}

fn read_level(items: &Vec<DirItem>) -> (r: Result<DirLevel, String>)
    ensures
        (match r {
            Ok(level) => Ok((level.entries@, level.truncated)),
            Err(message) => Err(message),
        }) == level_from(items@, 0, Seq::empty()),
{
    let mut entries: Vec<DirEntry> = Vec::new();
    let mut i: usize = 0;
    while i < items.len()
        invariant
            i <= items@.len(),
            level_from(items@, 0, Seq::empty()) == level_from(items@, i as int, entries@),
        decreases items@.len() - i,
    {
        if entries.len() >= DIR_MAX_ENTRIES {
            return Ok(DirLevel { entries, truncated: true });
        }
        match &items[i] {
            DirItem::Unreadable => {},
            DirItem::Entry { name, kind, size } => match kind {
                Ok(kind) => {
                    let size: Option<u64> = match kind {
                        DirEntryKind::File => *size,
                        _ => None,
                    };
                    entries.push(DirEntry { name: name.clone(), kind: *kind, size });
                },
                Err(message) => {
                    return Err(message.clone());
                },
            },
        }
        i = i + 1;
    }
    Ok(DirLevel { entries, truncated: false })
}

/// Lists a directory from what the file system answers. The path has to lie
/// within the root after both were resolved; at most `DIR_MAX_ENTRIES` entries
/// are kept.
pub fn list_dir(
    root: Result<String, String>,
    path: Result<String, PathFault>,
    is_dir: Result<bool, String>,
    items: Result<Vec<DirItem>, String>,
) -> (r: Result<DirLevel, (FilesErrorKind, String)>)
    ensures
        listed(r) == listing(root, path, is_dir, items),
{
    if let Some(fault) = fence_listing(&root, &path) {
        return Err(fault);
    }
    if let Some(fault) = refuse_listing(&is_dir) {
        return Err(fault);
    }
    match items {
        Err(message) => Err((FilesErrorKind::Unavailable, message)),
        Ok(items) => match read_level(&items) {
            Ok(level) => Ok(level),
            Err(message) => Err((FilesErrorKind::Unavailable, message)),
        },
    }
}

proof fn lemma_level_capped(items: Seq<DirItem>, at: int, done: Seq<DirEntry>)
    requires
        done.len() <= DIR_MAX_ENTRIES,
    ensures
        level_from(items, at, done) matches Ok((entries, truncated)) ==> entries.len()
            <= DIR_MAX_ENTRIES && (truncated ==> entries.len() == DIR_MAX_ENTRIES),
    decreases items.len() - at,
{
    if 0 <= at < items.len() && done.len() < DIR_MAX_ENTRIES {
        match items[at] {
            DirItem::Unreadable => lemma_level_capped(items, at + 1, done),
            DirItem::Entry { name, kind: Ok(kind), size } => lemma_level_capped(
                items,
                at + 1,
                done.push(shown_entry(name, kind, size)),
            ),
            _ => {},
        }
    }
}

/// A level never shows more entries than the limit, and entries are missing
/// only where the limit was reached.
pub proof fn level_is_capped(items: Seq<DirItem>)
    ensures
        level_from(items, 0, Seq::empty()) matches Ok((entries, truncated)) ==> entries.len()
            <= DIR_MAX_ENTRIES && (truncated ==> entries.len() == DIR_MAX_ENTRIES),
{
    lemma_level_capped(items, 0, Seq::empty());
}

// ---------------------------------------------------------------------------
// pages of text
// ---------------------------------------------------------------------------

/// The number of lines of a page.
pub const PAGE_MAX_LINES: usize = 5000;

/// The number of bytes that a page may hold.
pub const PAGE_MAX_BYTES: usize = 2097152;

/// The number of bytes that a file may hold to be read.
pub const FILE_MAX_BYTES: u64 = 33554432;

/// A page of text: its lines joined by line feeds, their number, and whether
/// the text ends with them.
#[derive(Clone, Debug)]
pub struct TextPage {
    pub text: String,
    pub lines: usize,
    pub eof: bool,
}

/// Whether a page counts the lines of its text; a page without lines has no
/// text.
pub open spec fn counts_lines(page: TextPage) -> bool {
    if page.lines == 0 {
        page.text@.len() == 0
    } else {
        lines_of(page.text@).len() == page.lines
    }
}

/// The smaller of two numbers.
pub open spec fn smaller(a: int, b: int) -> int {
    if a <= b {
        a
    } else {
        b
    }
}

/// The lines of a text.
pub open spec fn lines_of(s: Seq<char>) -> Seq<Seq<char>> {
    text::pieces(s, '\n')
}

/// The lines of the page that starts at line `offset`.
pub open spec fn page_lines(s: Seq<char>, offset: int) -> Seq<Seq<char>> {
    let n = lines_of(s).len() as int;
    lines_of(s).subrange(smaller(offset, n), smaller(offset + PAGE_MAX_LINES, n))
}

/// The page that starts at line `offset`, or the limit it goes beyond.
pub open spec fn page_of(s: Seq<char>, offset: int) -> Result<
    (Seq<char>, int, bool),
    PreviewErrorKind,
> {
    let body = text::joined(page_lines(s, offset), "\n"@);
    if vstd::utf8::encode_utf8(body).len() > PAGE_MAX_BYTES {
        Err(PreviewErrorKind::TooLarge { limit: PAGE_MAX_BYTES as u64 })
    } else {
        Ok(
            (
                body,
                page_lines(s, offset).len() as int,
                offset + PAGE_MAX_LINES >= lines_of(s).len(),
            ),
        )
    }
}

/// The page that starts at line `offset` of a file with the given bytes.
pub open spec fn page_of_bytes(bytes: Seq<u8>, offset: int) -> Result<
    (Seq<char>, int, bool),
    PreviewErrorKind,
> {
    if bytes.contains(0) || !vstd::utf8::valid_utf8(bytes) {
        Err(PreviewErrorKind::NotText)
    } else {
        page_of(vstd::utf8::decode_utf8(bytes), offset)
    }
}

/// Why a file is not looked at, given the resolved root and path.
pub open spec fn reading_fenced(root: Result<String, String>, path: Result<String, PathFault>) -> Option<
    PreviewErrorKind,
> {
    match (root, path) {
        (Err(message), _) => Some(PreviewErrorKind::Unavailable(message)),
        (Ok(_), Err(fault)) => if fault.missing {
            Some(PreviewErrorKind::NotFound)
        } else {
            Some(PreviewErrorKind::Unavailable(fault.message))
        },
        (Ok(root), Ok(path)) => if inside_root(root@, path@) {
            None
        } else {
            Some(PreviewErrorKind::OutsideWorkspace)
        },
    }
}

/// Why a file is not read, given whether it is a regular one and its length.
pub open spec fn unread(meta: Result<(bool, u64), String>) -> Option<PreviewErrorKind> {
    match meta {
        Err(message) => Some(PreviewErrorKind::Unavailable(message)),
        Ok((is_file, len)) => if !is_file {
            Some(PreviewErrorKind::NotRegularFile)
        } else if len > FILE_MAX_BYTES {
            Some(PreviewErrorKind::TooLarge { limit: FILE_MAX_BYTES })
        } else {
            None
        },
    }
}

/// The outcome of reading a page, given what the file system answers: the
/// resolved root, the resolved path, whether it is a regular file and its
/// length, and its bytes. What comes first decides first.
pub open spec fn reading(
    root: Result<String, String>,
    path: Result<String, PathFault>,
    meta: Result<(bool, u64), String>,
    bytes: Result<Vec<u8>, String>,
    offset: int,
) -> Result<(Seq<char>, int, bool), PreviewErrorKind> {
    match reading_fenced(root, path) {
        Some(kind) => Err(kind),
        None => match unread(meta) {
            Some(kind) => Err(kind),
            None => match bytes {
                Err(message) => Err(PreviewErrorKind::Unavailable(message)),
                Ok(bytes) => page_of_bytes(bytes@, offset),
            },
        },
    }
}

/// Why a file is not looked at, once root and path were resolved; nothing
/// where it may be.
pub fn fence_reading(root: &Result<String, String>, path: &Result<String, PathFault>) -> (r: Option<
    PreviewErrorKind,
>)
    ensures
        r == reading_fenced(*root, *path),
{
    match root {
        Err(message) => Some(PreviewErrorKind::Unavailable(message.clone())),
        Ok(root) => match path {
            Err(fault) => {
                if fault.missing {
                    Some(PreviewErrorKind::NotFound)
                } else {
                    Some(PreviewErrorKind::Unavailable(fault.message.clone()))
                }
            },
            Ok(path) => {
                if within_root(root.as_str(), path.as_str()) {
                    None
                } else {
                    Some(PreviewErrorKind::OutsideWorkspace)
                }
            },
        },
    }
}

/// Why a file is not read; nothing where it is a regular one of a size that
/// can be read.
pub fn refuse_reading(meta: &Result<(bool, u64), String>) -> (r: Option<PreviewErrorKind>)
    ensures
        r == unread(*meta),
{
    match meta {
        Err(message) => Some(PreviewErrorKind::Unavailable(message.clone())),
        Ok((is_file, len)) => {
            if !*is_file {
                Some(PreviewErrorKind::NotRegularFile)
            } else if *len > FILE_MAX_BYTES {
                Some(PreviewErrorKind::TooLarge { limit: FILE_MAX_BYTES })
            } else {
                None
            }
        },
    }
}

/// What a page holds.
pub open spec fn paged(r: Result<TextPage, PreviewErrorKind>) -> Result<
    (Seq<char>, int, bool),
    PreviewErrorKind,
> {
    match r {
        Ok(page) => Ok((page.text@, page.lines as int, page.eof)),
        Err(kind) => Err(kind),
    }
}

/// `String::from_utf8` turns bytes into text exactly where they are valid
/// UTF-8, and the text is the one that the bytes encode.
#[verifier::external_body]
fn decode_text(bytes: Vec<u8>) -> (r: Option<String>)
    ensures
        r is Some == vstd::utf8::valid_utf8(bytes@),
        r matches Some(s) ==> vstd::utf8::encode_utf8(s@) == bytes@,
{
    String::from_utf8(bytes).ok()
}

fn holds_zero(bytes: &Vec<u8>) -> (r: bool)
    ensures
        r == bytes@.contains(0),
{
    let mut i: usize = 0;
    while i < bytes.len()
        invariant
            i <= bytes@.len(),
            forall|k: int| 0 <= k < i ==> bytes@[k] != 0,
        decreases bytes@.len() - i,
    {
        if bytes[i] == 0 {
            assert(bytes@[i as int] == 0);
            return true;
        }
        i = i + 1;
    }
    false
}

/// The page of a text that starts at line `offset`.
pub fn text_page(s: &str, offset: usize) -> (r: Result<TextPage, PreviewErrorKind>)
    requires
        offset <= usize::MAX - PAGE_MAX_LINES,
    ensures
        paged(r) == page_of(s@, offset as int),
        r matches Ok(page) ==> counts_lines(page),
{
    let lines: Vec<String> = text::split(s, '\n');
    let n: usize = lines.len();
    let start: usize = if offset <= n { offset } else { n };
    let end: usize = if offset + PAGE_MAX_LINES <= n { offset + PAGE_MAX_LINES } else { n };
    let body: String = text::join_between(&lines, start, end, "\n");
    assert(lines.deep_view().len() == n);
    proof {
        let shown = page_lines(s@, offset as int);
        reveal_strlit("\n");
        assert("\n"@ =~= seq!['\n']);
        text::lemma_pieces_hold_none(s@, '\n');
        if shown.len() > 0 {
            assert forall|i: int| 0 <= i < shown.len() implies !(#[trigger] shown[i]).contains(
                '\n',
            ) by {
                assert(shown[i] == lines_of(s@)[start + i]);
            }
            text::join_then_split(shown, '\n');
        }
    }
    let size: usize = body.as_str().as_bytes().len();
    if size > PAGE_MAX_BYTES {
        return Err(PreviewErrorKind::TooLarge { limit: PAGE_MAX_BYTES as u64 });
    }
    Ok(TextPage { text: body, lines: end - start, eof: end >= n })
}

/// Reads one page of a file from what the file system answers. The path has to
/// lie within the root, the file may not be larger than `FILE_MAX_BYTES`, has
/// to be text, and the page may not be larger than `PAGE_MAX_BYTES`.
pub fn read_text_page(
    root: Result<String, String>,
    path: Result<String, PathFault>,
    meta: Result<(bool, u64), String>,
    bytes: Result<Vec<u8>, String>,
    offset: usize,
) -> (r: Result<TextPage, PreviewErrorKind>)
    requires
        offset <= usize::MAX - PAGE_MAX_LINES,
    ensures
        paged(r) == reading(root, path, meta, bytes, offset as int),
        r matches Ok(page) ==> counts_lines(page),
{
    if let Some(kind) = fence_reading(&root, &path) {
        return Err(kind);
    }
    if let Some(kind) = refuse_reading(&meta) {
        return Err(kind);
    }
    let bytes: Vec<u8> = match bytes {
        Ok(bytes) => bytes,
        Err(message) => {
            return Err(PreviewErrorKind::Unavailable(message));
        },
    };
    if holds_zero(&bytes) {
        return Err(PreviewErrorKind::NotText);
    }
    let ghost raw = bytes@;
    match decode_text(bytes) {
        None => Err(PreviewErrorKind::NotText),
        Some(s) => {
            proof {
                vstd::utf8::encode_utf8_decode_utf8(s@);
            }
            text_page(s.as_str(), offset)
        },
    }
}

/// The pages of a text follow one another without gap or overlap: the lines
/// before a page and the lines of the page are the lines before the next page;
/// and a page is the last one exactly where no line follows it.
pub proof fn pages_cover_the_text(s: Seq<char>, offset: int)
    requires
        0 <= offset <= lines_of(s).len(),
    ensures
        lines_of(s).take(offset) + page_lines(s, offset) == lines_of(s).take(
            offset + page_lines(s, offset).len(),
        ),
        (offset + PAGE_MAX_LINES >= lines_of(s).len()) == (offset + page_lines(s, offset).len()
            == lines_of(s).len()),
{
    assert(lines_of(s).take(offset) + page_lines(s, offset) =~= lines_of(s).take(
        offset + page_lines(s, offset).len(),
    ));
}

/// Joined again, the lines of a text are the text.
pub proof fn lines_make_the_text(s: Seq<char>)
    ensures
        text::joined(lines_of(s), "\n"@) == s,
{
    reveal_strlit("\n");
    assert("\n"@ =~= seq!['\n']);
    text::split_then_join(s, '\n');
}

/// The pages that are read from line `offset` on, each starting behind the
/// lines of the one before, up to the one that ends the text: their texts and
/// numbers of lines. Nothing where a page cannot be read.
pub open spec fn read_through(s: Seq<char>, offset: int) -> Option<Seq<(Seq<char>, int)>>
    decreases
            if offset < lines_of(s).len() {
                lines_of(s).len() - offset
            } else {
                0
            },
{
    match page_of(s, offset) {
        Err(_) => None,
        Ok((body, n, eof)) => if eof {
            Some(seq![(body, n)])
        } else if n <= 0 || offset >= lines_of(s).len() {
            None
        } else {
            match read_through(s, offset + n) {
                Some(rest) => Some(seq![(body, n)] + rest),
                None => None,
            }
        },
    }
}

/// The numbers of lines of pages, added up.
pub open spec fn lines_read(pages: Seq<(Seq<char>, int)>) -> int
    decreases pages.len(),
{
    if pages.len() == 0 {
        0
    } else {
        pages[0].1 + lines_read(pages.skip(1))
    }
}

/// The texts of pages.
pub open spec fn page_texts(pages: Seq<(Seq<char>, int)>) -> Seq<Seq<char>> {
    pages.map_values(|p: (Seq<char>, int)| p.0)
}

proof fn lemma_joined_parts(a: Seq<Seq<char>>, b: Seq<Seq<char>>, sep: Seq<char>)
    requires
        a.len() > 0,
        b.len() > 0,
    ensures
        text::joined(a + b, sep) == text::joined(a, sep) + sep + text::joined(b, sep),
    decreases b.len(),
{
    let all = a + b;
    assert(all.drop_last() =~= a + b.drop_last());
    if b.len() == 1 {
        assert(all.drop_last() =~= a);
        assert(text::joined(b, sep) == b[0]);
    } else {
        lemma_joined_parts(a, b.drop_last(), sep);
        assert(text::joined(all, sep) =~= text::joined(a, sep) + sep + text::joined(b, sep));
    }
}

proof fn lemma_read_through(s: Seq<char>, offset: int)
    requires
        0 <= offset < lines_of(s).len(),
        offset % (PAGE_MAX_LINES as int) == 0,
        forall|at: int|
            0 <= at < lines_of(s).len() && at % (PAGE_MAX_LINES as int) == 0 ==> (
            #[trigger] page_of(s, at)) is Ok,
    ensures
        read_through(s, offset) matches Some(pages) && {
            &&& pages.len() == (lines_of(s).len() - offset + PAGE_MAX_LINES - 1) / (
            PAGE_MAX_LINES as int)
            &&& lines_read(pages) == lines_of(s).len() - offset
            &&& text::joined(page_texts(pages), "\n"@) == text::joined(
                lines_of(s).skip(offset),
                "\n"@,
            )
        },
    decreases lines_of(s).len() - offset,
{
    let all = lines_of(s);
    let n = page_lines(s, offset).len() as int;
    let body = text::joined(page_lines(s, offset), "\n"@);
    assert(page_of(s, offset) is Ok);
    let first = seq![(body, n)];
    assert(first.skip(1) =~= Seq::empty());
    assert(page_texts(first) =~= seq![body]);
    if offset + PAGE_MAX_LINES >= all.len() {
        assert(page_lines(s, offset) =~= all.skip(offset));
        reveal_with_fuel(lines_read, 2);
    } else {
        assert(n == PAGE_MAX_LINES);
        lemma_read_through(s, offset + n);
        let rest = read_through(s, offset + n)->0;
        let pages = first + rest;
        assert(pages.skip(1) =~= rest);
        assert(page_texts(pages) =~= seq![body] + page_texts(rest));
        lemma_joined_parts(seq![body], page_texts(rest), "\n"@);
        assert(text::joined(seq![body], "\n"@) == body);
        assert(all.skip(offset) =~= page_lines(s, offset) + all.skip(offset + n));
        lemma_joined_parts(page_lines(s, offset), all.skip(offset + n), "\n"@);
    }
}

/// Read page by page, a text whose pages can all be read ends after as many
/// pages as its lines fill, the lines of the pages add up to its lines, and
/// their texts, joined, are the text.
pub proof fn pages_give_back_the_text(s: Seq<char>)
    requires
        forall|at: int|
            0 <= at < lines_of(s).len() && at % (PAGE_MAX_LINES as int) == 0 ==> (
            #[trigger] page_of(s, at)) is Ok,
    ensures
        read_through(s, 0) matches Some(pages) && {
            &&& pages.len() == (lines_of(s).len() + PAGE_MAX_LINES - 1) / (PAGE_MAX_LINES as int)
            &&& lines_read(pages) == lines_of(s).len()
            &&& text::joined(page_texts(pages), "\n"@) == s
        },
{
    text::lemma_pieces_nonempty(s, '\n');
    lemma_read_through(s, 0);
    assert(lines_of(s).skip(0) =~= lines_of(s));
    lines_make_the_text(s);
}

// ---------------------------------------------------------------------------
// laws of listing and reading
// ---------------------------------------------------------------------------

/// What only starts like the root lies outside it: a name that goes on where
/// the root ends is not below the root.
pub proof fn sibling_is_outside(root: Seq<char>, tail: Seq<char>)
    requires
        normal_path(root) == root,
        root.len() > 0,
        root.last() != '/',
        tail.len() > 0,
        tail[0] != '/',
        tail[0] != '\\',
    ensures
        !inside_root(root, root + tail),
{
    let path = root + tail;
    let t = path.map_values(|c: char| slash(c));
    lemma_tail_taken(t);
    let w = without_tail(t);
    let n = root.len() as int;
    assert(t[n] == tail[0]);
    assert(w.len() > n) by {
        if w.len() <= n {
            assert(t[n] == '/');
        }
    }
    let p = normal_path(path);
    assert(p.len() == w.len());
    assert(w[n] == t[n]);
    assert(p[n] == text::lower_ascii(tail[0]));
    assert(p[n] != '/');
    reveal_strlit("/");
    if text::begins(p, edge_of(root)) {
        assert(p.take(n + 1)[n] == p[n]);
        assert(edge_of(root)[n] == '/');
    }
}

proof fn lemma_tail_taken(t: Seq<char>)
    ensures
        without_tail(t).len() <= t.len(),
        without_tail(t) == t.take(without_tail(t).len() as int),
        forall|k: int| without_tail(t).len() <= k < t.len() ==> #[trigger] t[k] == '/',
    decreases t.len(),
{
    if t.len() > 1 && t.last() == '/' {
        let head = t.drop_last();
        lemma_tail_taken(head);
        let n = without_tail(t).len() as int;
        assert(head.take(n) =~= t.take(n));
        assert forall|k: int| n <= k < t.len() implies #[trigger] t[k] == '/' by {
            if k < t.len() - 1 {
                assert(head[k] == t[k]);
            }
        }
    } else {
        assert(t.take(t.len() as int) =~= t);
    }
}

/// The path of a child is that of its directory, one slash and its name.
pub proof fn child_path_ends_with_the_name(parent: Seq<char>, name: Seq<char>)
    requires
        parent.len() > 0,
        parent.last() != '/',
        parent.last() != '\\',
    ensures
        text::begins(child_key(parent, name), parent),
        text::finishes(child_key(parent, name), name),
        child_key(parent, name).len() == parent.len() + 1 + name.len(),
        child_key(parent, name)[parent.len() as int] == '/',
{
    reveal_strlit("/");
    let seps = separators();
    assert(!seps.contains(parent.last())) by {
        if seps.contains(parent.last()) {
            let k = choose|k: int| 0 <= k < seps.len() && seps[k] == parent.last();
            assert(k == 0 || k == 1);
        }
    }
    assert(text::stripped_end(parent, seps) == parent);
    let r = child_key(parent, name);
    assert(r.take(parent.len() as int) =~= parent);
    assert(r.skip(r.len() - name.len()) =~= name);
}

/// A directory is listed only inside the workspace: what lies outside is
/// refused, what is missing is not found, what is no directory is not listed,
/// and what the disk says of a failure is passed on.
pub proof fn only_the_workspace_is_listed(
    root: Result<String, String>,
    path: Result<String, PathFault>,
    is_dir: Result<bool, String>,
    items: Result<Vec<DirItem>, String>,
)
    ensures
        ({
            let r = listing(root, path, is_dir, items);
            &&& root is Ok && path is Ok && !inside_root((root->Ok_0)@, (path->Ok_0)@) ==> r is Err
                && r->Err_0.0 == FilesErrorKind::OutsideWorkspace
            &&& root is Ok && path is Err && (path->Err_0).missing ==> r is Err && r->Err_0.0
                == FilesErrorKind::NotFound
            &&& root is Ok && path is Ok && inside_root((root->Ok_0)@, (path->Ok_0)@) && is_dir
                == Ok::<bool, String>(false) ==> r is Err && r->Err_0.0
                == FilesErrorKind::NotDirectory
            &&& r is Ok ==> root is Ok && path is Ok && inside_root((root->Ok_0)@, (path->Ok_0)@)
                && is_dir == Ok::<bool, String>(true) && items is Ok
            &&& root is Err ==> r == Err::<(Seq<DirEntry>, bool), (FilesErrorKind, Seq<char>)>(
                (FilesErrorKind::Unavailable, (root->Err_0)@),
            )
        }),
{
}

/// A file is read only inside the workspace, only where it is a regular file of
/// a size that can be shown, and only as text.
pub proof fn only_text_of_the_workspace_is_read(
    root: Result<String, String>,
    path: Result<String, PathFault>,
    meta: Result<(bool, u64), String>,
    bytes: Result<Vec<u8>, String>,
    offset: int,
)
    ensures
        ({
            let r = reading(root, path, meta, bytes, offset);
            let fenced = root is Ok && path is Ok && inside_root((root->Ok_0)@, (path->Ok_0)@);
            &&& root is Ok && path is Ok && !inside_root((root->Ok_0)@, (path->Ok_0)@) ==> r
                == Err::<(Seq<char>, int, bool), PreviewErrorKind>(
                PreviewErrorKind::OutsideWorkspace,
            )
            &&& root is Ok && path is Err && (path->Err_0).missing ==> r == Err::<
                (Seq<char>, int, bool),
                PreviewErrorKind,
            >(PreviewErrorKind::NotFound)
            &&& fenced && meta is Ok && !(meta->Ok_0).0 ==> r == Err::<
                (Seq<char>, int, bool),
                PreviewErrorKind,
            >(PreviewErrorKind::NotRegularFile)
            &&& fenced && meta is Ok && (meta->Ok_0).0 && (meta->Ok_0).1 > 32 * 1024 * 1024 ==> r
                is Err && r->Err_0 is TooLarge
            &&& fenced && meta is Ok && (meta->Ok_0).0 && (meta->Ok_0).1 <= 32 * 1024 * 1024
                && bytes is Ok && (bytes->Ok_0)@.contains(0) ==> r == Err::<
                (Seq<char>, int, bool),
                PreviewErrorKind,
            >(PreviewErrorKind::NotText)
            &&& r is Ok ==> fenced && meta is Ok && (meta->Ok_0).0 && (meta->Ok_0).1 <= 32 * 1024
                * 1024 && bytes is Ok && !(bytes->Ok_0)@.contains(0) && vstd::utf8::valid_utf8(
                (bytes->Ok_0)@,
            )
        }),
{
}

/// The entries of a directory that can be read are all listed, in the order in
/// which they came, each with its name and kind, and a file with its size.
pub proof fn every_entry_is_listed(items: Seq<DirItem>, done: Seq<DirEntry>, i: int)
    requires
        items.len() + done.len() <= 2000,
        forall|k: int|
            0 <= k < items.len() ==> ((#[trigger] items[k]) is Entry && items[k]->kind is Ok),
    ensures
        level_from(items, 0, done) is Ok,
        ({
            let r = level_from(items, 0, done)->Ok_0;
            &&& !r.1
            &&& r.0.len() == done.len() + items.len()
            &&& 0 <= i < items.len() ==> ({
                let e = r.0[done.len() + i];
                &&& e.name == items[i]->name
                &&& Ok::<DirEntryKind, String>(e.kind) == items[i]->kind
                &&& e.kind is File ==> e.size == items[i]->size
                &&& !(e.kind is File) ==> e.size is None
            })
        }),
{
    lemma_listed_from(items, 0, done, i);
}

proof fn lemma_listed_from(items: Seq<DirItem>, at: int, done: Seq<DirEntry>, i: int)
    requires
        0 <= at <= items.len(),
        items.len() - at + done.len() <= 2000,
        forall|k: int|
            0 <= k < items.len() ==> ((#[trigger] items[k]) is Entry && items[k]->kind is Ok),
    ensures
        level_from(items, at, done) is Ok,
        ({
            let r = level_from(items, at, done)->Ok_0;
            &&& !r.1
            &&& r.0.len() == done.len() + items.len() - at
            &&& r.0.take(done.len() as int) == done
            &&& at <= i < items.len() ==> ({
                let e = r.0[done.len() + i - at];
                &&& e.name == items[i]->name
                &&& Ok::<DirEntryKind, String>(e.kind) == items[i]->kind
                &&& e.kind is File ==> e.size == items[i]->size
                &&& !(e.kind is File) ==> e.size is None
            })
        }),
    decreases items.len() - at,
{
    if at < items.len() {
        assert(items[at] is Entry && items[at]->kind is Ok);
        let next = shown_entry(items[at]->name, items[at]->kind->Ok_0, items[at]->size);
        lemma_listed_from(items, at + 1, done.push(next), i);
        let r = level_from(items, at, done)->Ok_0.0;
        assert(r.take(done.len() as int) =~= done) by {
            assert forall|k: int| 0 <= k < done.len() implies r[k] == done[k] by {
                assert(r.take(done.len() + 1int)[k] == done.push(next)[k]);
            }
        }
        assert(r[done.len() as int] == next) by {
            assert(r.take(done.len() + 1int)[done.len() as int] == done.push(
                next,
            )[done.len() as int]);
        }
    } else {
        assert(done.take(done.len() as int) =~= done);
    }
}

/// Directories come before everything else, and two of a kind in the natural
/// order of their names.
pub proof fn directories_come_first(l: DirEntry, r: DirEntry)
    ensures
        l.kind is Directory && !(r.kind is Directory) ==> entry_rank(l, r) == Rank::Before
            && entry_rank(r, l) == Rank::After,
        (l.kind is Directory <==> r.kind is Directory) ==> entry_rank(l, r) == natural::natural(
            name_bytes(l),
            name_bytes(r),
        ),
{
}

/// A number of bytes is shown in whole units, the largest that it reaches.
pub proof fn sizes_are_shown_in_whole_units(bytes: u64)
    ensures
        bytes < 1024 ==> text::number(human_text(bytes).take(human_text(bytes).len() - 2)) == bytes,
        1024 <= bytes < 1024 * 1024 ==> text::number(
            human_text(bytes).take(human_text(bytes).len() - 3),
        ) == bytes / 1024 && text::finishes(human_text(bytes), " KB"@),
        1024 * 1024 <= bytes ==> text::number(human_text(bytes).take(human_text(bytes).len() - 3))
            == bytes / 1048576 && text::finishes(human_text(bytes), " MB"@),
{
    reveal_strlit(" B");
    reveal_strlit(" KB");
    reveal_strlit(" MB");
    let s = human_text(bytes);
    text::lemma_dec_reads(bytes as nat);
    text::lemma_dec_reads((bytes / 1024) as nat);
    text::lemma_dec_reads((bytes / 1048576) as nat);
    if bytes < 1024 {
        assert(s.take(s.len() - 2) =~= text::dec(bytes as nat));
    } else if bytes < 1048576 {
        assert(s.take(s.len() - 3) =~= text::dec((bytes / 1024) as nat));
        assert(s.skip(s.len() - 3) =~= " KB"@);
    } else {
        assert(s.take(s.len() - 3) =~= text::dec((bytes / 1048576) as nat));
        assert(s.skip(s.len() - 3) =~= " MB"@);
    }
}

/// A failure that the disk explains is shown with what the disk said.
pub proof fn failures_say_why(message: String, limit: u64)
    ensures
        text::finishes(files_failure_text(FilesErrorKind::Unavailable, message@), message@),
        text::finishes(
            preview_failure_text(PreviewErrorKind::Unavailable(message)),
            message@,
        ),
        text::holds_text(
            preview_failure_text(PreviewErrorKind::TooLarge { limit }),
            human_text(limit),
        ),
{
    let a = files_failure_text(FilesErrorKind::Unavailable, message@);
    assert(a.skip(a.len() - message@.len()) =~= message@);
    let b = preview_failure_text(PreviewErrorKind::Unavailable(message));
    assert(b.skip(b.len() - message@.len()) =~= message@);
    let c = preview_failure_text(PreviewErrorKind::TooLarge { limit });
    let n = "单页内容超过 "@.len() as int;
    assert(c.subrange(n, n + human_text(limit).len()) =~= human_text(limit));
    assert(text::stands_at(c, human_text(limit), n));
}

/// A page is the lines of the text from its offset on: as many as a page holds,
/// or as there are.
pub proof fn page_starts_at_its_offset(s: Seq<char>, offset: int, i: int)
    requires
        0 <= offset <= lines_of(s).len(),
    ensures
        page_lines(s, offset).len() == (if lines_of(s).len() - offset < 5000 {
            lines_of(s).len() - offset
        } else {
            5000
        }),
        0 <= i < page_lines(s, offset).len() ==> page_lines(s, offset)[i] == lines_of(s)[offset + i],
        page_of(s, offset) matches Ok((body, n, eof)) ==> n == page_lines(s, offset).len() && body
            == text::joined(page_lines(s, offset), "\n"@) && (eof <==> offset + n
            == lines_of(s).len()),
{
}

} // verus!
