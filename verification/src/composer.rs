//! What is typed: the files it refers to, the files attached to it, and what
//! sending it does.

use crate::chat::{self, ContextInfo};
use crate::filetype;
use crate::roster::{self, MetaView, SessionMeta};
use crate::session::{ContentBlock, ContextSource, Message, MessageRole, MessageSource};
use crate::settings::EnterBehavior;
use crate::text;
use crate::usage;
use crate::view_split::ViewSplit;
use vstd::prelude::*;

verus! {

// ---------------------------------------------------------------------------
// files that a text refers to
// ---------------------------------------------------------------------------

/// How many characters of a file are put in.
pub const CONTENT_LIMIT: usize = 120_000;

/// How many characters stand before the first blank.
pub open spec fn word_len(s: Seq<char>) -> nat
    decreases s.len(),
{
    if s.len() == 0 || text::is_white(s[0]) {
        0
    } else {
        1 + word_len(s.drop_first())
    }
}

/// What stands between blanks.
pub open spec fn words(s: Seq<char>) -> Seq<Seq<char>>
    decreases s.len(),
{
    if s.len() == 0 {
        Seq::empty()
    } else if text::is_white(s[0]) {
        words(s.drop_first())
    } else {
        proof {
            lemma_word_fits(s);
        }
        seq![s.take(word_len(s) as int)] + words(s.skip(word_len(s) as int))
    }
}

/// A word ends where the text ends, at the latest.
pub proof fn lemma_word_fits(s: Seq<char>)
    ensures
        word_len(s) <= s.len(),
    decreases s.len(),
{
    if s.len() > 0 && !text::is_white(s[0]) {
        lemma_word_fits(s.drop_first());
    }
}

proof fn lemma_word_len(s: Seq<char>, n: int)
    requires
        0 <= n <= s.len(),
        forall|i: int| 0 <= i < n ==> !text::is_white(#[trigger] s[i]),
        n < s.len() ==> text::is_white(s[n]),
    ensures
        word_len(s) == n,
    decreases s.len(),
{
    if n > 0 {
        let t = s.drop_first();
        assert forall|i: int| 0 <= i < n - 1 implies !text::is_white(#[trigger] t[i]) by {
            assert(t[i] == s[i + 1]);
        }
        lemma_word_len(t, n - 1);
    }
}

/// What stands between blanks, in order.
pub fn split_words(s: &str) -> (r: Vec<String>)
    ensures
        r.deep_view() == words(s@),
{
    let v: Vec<char> = text::chars_of(s);
    let mut r: Vec<String> = Vec::new();
    let mut i: usize = 0;
    let n: usize = v.len();
    assert(s@.skip(0) =~= s@);
    assert(r.deep_view() + words(s@) =~= words(s@));
    while i < n
        invariant
            i <= n == v@.len(),
            v@ == s@,
            r.deep_view() + words(s@.skip(i as int)) == words(s@),
        decreases n - i,
    {
        let ghost rest = s@.skip(i as int);
        if text::white(v[i]) {
            assert(rest.drop_first() =~= s@.skip(i + 1));
            i = i + 1;
        } else {
            let from: usize = i;
            while i < n && !text::white(v[i])
                invariant
                    from <= i <= n == v@.len(),
                    forall|k: int| from <= k < i ==> !text::is_white(#[trigger] v@[k]),
                decreases n - i,
            {
                i = i + 1;
            }
            let ghost len = i - from;
            assert forall|k: int| 0 <= k < len implies !text::is_white(#[trigger] rest[k]) by {
                assert(rest[k] == v@[from + k]);
            }
            proof {
                lemma_word_len(rest, len);
            }
            let w: String = text::text_between(v.as_slice(), from, i);
            let ghost before = r.deep_view();
            r.push(w);
            assert(w@ =~= rest.take(len));
            assert(rest.skip(len) =~= s@.skip(i as int));
            assert(r.deep_view() =~= before.push(w@));
            assert(before.push(w@) + words(s@.skip(i as int)) =~= before + (seq![w@] + words(
                s@.skip(i as int),
            )));
        }
    }
    assert(s@.skip(i as int) =~= Seq::<char>::empty());
    assert(r.deep_view() + words(s@.skip(i as int)) =~= r.deep_view());
    r
}

/// The marks that do not belong to a path they stand next to.
pub open spec fn marks() -> Seq<char> {
    "(),、。;；'\"！？"@
}

/// The path that a word refers to: what stands behind its `@`, without the
/// marks around it.
pub open spec fn mention(word: Seq<char>) -> Option<Seq<char>> {
    match text::behind(word, "@"@) {
        Some(s) => {
            let path = text::stripped_end(text::stripped_start(s, marks()), marks());
            if path.len() > 0 {
                Some(path)
            } else {
                None
            }
        },
        None => None,
    }
}

/// The paths that words refer to, in order.
pub open spec fn mentions(words: Seq<Seq<char>>) -> Seq<Seq<char>>
    decreases words.len(),
{
    if words.len() == 0 {
        Seq::empty()
    } else {
        let head = mentions(words.drop_last());
        match mention(words.last()) {
            Some(path) => head.push(path),
            None => head,
        }
    }
}

fn read_mention(word: &str) -> (r: Option<String>)
    ensures
        r.deep_view() == mention(word@),
{
    match text::strip_prefix(word, "@") {
        Some(s) => {
            let set: Vec<char> = text::chars_of("(),、。;；'\"！？");
            let head: String = text::strip_start(s.as_str(), set.as_slice());
            let path: String = text::strip_end(head.as_str(), set.as_slice());
            if path.as_str().is_empty() {
                None
            } else {
                Some(path)
            }
        },
        None => None,
    }
}

/// The paths that a text refers to with `@`, in order.
pub fn file_mentions(s: &str) -> (r: Vec<String>)
    ensures
        r.deep_view() == mentions(words(s@)),
{
    let all: Vec<String> = split_words(s);
    let mut r: Vec<String> = Vec::new();
    let mut i: usize = 0;
    let ghost view = all.deep_view();
    assert(view.take(0) =~= Seq::<Seq<char>>::empty());
    assert(r.deep_view() =~= Seq::<Seq<char>>::empty());
    while i < all.len()
        invariant
            i <= all@.len(),
            view == all.deep_view(),
            r.deep_view() == mentions(view.take(i as int)),
        decreases all@.len() - i,
    {
        let ghost next = view.take(i + 1);
        assert(next.drop_last() =~= view.take(i as int));
        assert(next.last() == all@[i as int]@);
        let ghost before = r.deep_view();
        match read_mention(all[i].as_str()) {
            Some(path) => {
                r.push(path);
                assert(r.deep_view() =~= before.push(path@));
            },
            None => {},
        }
        i = i + 1;
    }
    assert(view.take(i as int) =~= view);
    r
}

/// The part of a file that is put in: all of it, or the first 120000 characters
/// and a note.
pub open spec fn put_in(content: Seq<char>) -> Seq<char> {
    if content.len() > CONTENT_LIMIT {
        content.take(CONTENT_LIMIT as int) + "\n…（内容过长已截断）"@
    } else {
        content
    }
}

fn shorten(content: String) -> (r: String)
    ensures
        r@ == put_in(content@),
{
    if text::char_count(content.as_str()) > CONTENT_LIMIT {
        let head: String = text::take_chars(content.as_str(), CONTENT_LIMIT);
        assert(head@ =~= content@.take(CONTENT_LIMIT as int));
        text::concat2(head.as_str(), "\n…（内容过长已截断）")
    } else {
        content
    }
}

/// Whether one of the references is to this path.
pub open spec fn refers_to(refs: Seq<(Seq<char>, Seq<char>)>, path: Seq<char>) -> bool {
    exists|i: int| 0 <= i < refs.len() && (#[trigger] refs[i]).0 == path
}

/// The references that found files make: each path once, and only where the
/// file could be read.
pub open spec fn collected(found: Seq<(Seq<char>, Option<Seq<char>>)>) -> Seq<
    (Seq<char>, Seq<char>),
>
    decreases found.len(),
{
    if found.len() == 0 {
        Seq::empty()
    } else {
        let head = collected(found.drop_last());
        let (path, content) = found.last();
        match content {
            Some(content) => if refers_to(head, path) {
                head
            } else {
                head.push((path, put_in(content)))
            },
            None => head,
        }
    }
}

fn has_reference(refs: &Vec<(String, String)>, path: &str) -> (r: bool)
    ensures
        r == refers_to(refs.deep_view(), path@),
{
    let mut i: usize = 0;
    let ghost view = refs.deep_view();
    while i < refs.len()
        invariant
            i <= refs@.len(),
            view == refs.deep_view(),
            forall|k: int| 0 <= k < i ==> (#[trigger] view[k]).0 != path@,
        decreases refs@.len() - i,
    {
        if text::same(refs[i].0.as_str(), path) {
            assert(view[i as int].0 == path@);
            return true;
        }
        assert(view[i as int].0 != path@);
        i = i + 1;
    }
    false
}

/// The references that the files a text names make. `found` lists, for each
/// name that led to a file, the path of the file and its text where that could
/// be read.
pub fn resolve_file_references(found: Vec<(String, Option<String>)>) -> (r: Vec<(String, String)>)
    ensures
        r.deep_view() == collected(found.deep_view()),
{
    let mut r: Vec<(String, String)> = Vec::new();
    let ghost all = found@;
    let ghost view = found.deep_view();
    assert(view.take(0) =~= Seq::<(Seq<char>, Option<Seq<char>>)>::empty());
    assert(r.deep_view() =~= Seq::<(Seq<char>, Seq<char>)>::empty());
    for f in it: found
        invariant
            it.seq() == all,
            view.len() == all.len(),
            forall|i: int| 0 <= i < all.len() ==> view[i] == (#[trigger] all[i]).deep_view(),
            r.deep_view() == collected(view.take(it.index() as int)),
    {
        let ghost i = it.index() as int;
        let ghost next = view.take(i + 1);
        assert(next.drop_last() =~= view.take(i));
        assert(next.last() == all[i].deep_view());
        let ghost before = r.deep_view();
        let (path, content) = f;
        match content {
            Some(content) => {
                if !has_reference(&r, path.as_str()) {
                    let ghost whole = content@;
                    let content: String = shorten(content);
                    let ghost item = (path@, put_in(whole));
                    r.push((path, content));
                    assert(r.deep_view() =~= before.push(item));
                }
            },
            None => {},
        }
    }
    assert(view.take(all.len() as int) =~= view);
    r
}

/// What is sent for a file that a text refers to, and what is shown of it.
pub struct FileNote {
    pub message: Message,
    pub info: ContextInfo,
    pub text: String,
}

/// Where a message for a referred file comes from.
pub open spec fn reference_source(c: ContextSource, path: Seq<char>, name: Seq<char>) -> bool {
    &&& c.kind@ == "file-reference"@
    &&& c.plugin is None
    &&& c.summary.deep_view() == Some("引用文件 "@ + name)
    &&& c.changes_paths.deep_view() == seq![path]
    &&& c.reference_labels.deep_view() == seq![name]
    &&& c.name is None
}

fn file_source(path: &str, name: &str, label: &str) -> (r: ContextSource)
    ensures
        r.kind@ == "file-reference"@,
        r.plugin is None,
        r.summary.deep_view() == Some("引用文件 "@ + name@),
        r.changes_paths.deep_view() == seq![path@],
        r.reference_labels.deep_view() == seq![label@],
        r.name is None,
{
    let mut paths: Vec<String> = Vec::new();
    paths.push(path.to_owned());
    let mut labels: Vec<String> = Vec::new();
    labels.push(label.to_owned());
    assert(paths.deep_view() =~= seq![path@]);
    assert(labels.deep_view() =~= seq![label@]);
    ContextSource {
        kind: "file-reference".to_owned(),
        plugin: None,
        summary: Some(text::concat2("引用文件 ", name)),
        changes_paths: paths,
        reference_labels: labels,
        name: None,
    }
}

/// What is sent for a file that a text refers to: a message of its path and its
/// text, and a line of the transcript under the name of the file. `name` is the
/// last part of the path, where it has one.
pub fn file_note(path: &str, name: Option<&str>, content: &str) -> (r: FileNote)
    ensures
        ({
            let name = match name {
                Some(n) => n@,
                None => path@,
            };
            &&& r.message.role == MessageRole::User
            &&& r.message.content@.len() == 1
            &&& r.message.content@[0] matches ContentBlock::Text { text } && text@ == "引用文件："@
                + path@ + "\n"@ + content@
            &&& r.message.source matches MessageSource::Context(c) && reference_source(
                c,
                path@,
                name,
            )
            &&& r.info.deep_view() == (chat::ContextView {
                title: "上下文注入"@,
                label: if text::trimmed(name).len() > 0 {
                    Some(name)
                } else {
                    None
                },
                summary: chat::context_summary(Some("引用文件 "@ + name)),
            })
            &&& r.text@ == "引用文件 "@ + path@
        }),
{
    let shown: &str = match name {
        Some(n) => n,
        None => path,
    };
    let head: String = text::concat3("引用文件：", path, "\n");
    let mut content_blocks: Vec<ContentBlock> = Vec::new();
    content_blocks.push(ContentBlock::Text { text: text::concat2(head.as_str(), content) });
    let source: ContextSource = file_source(path, shown, shown);
    let info: ContextInfo = chat::context_info(&source);
    proof {
        reveal_strlit("file-reference");
        reveal_strlit("session-reference");
        assert("file-reference"@.len() != "session-reference"@.len());
        let one = source.reference_labels.deep_view();
        assert(one.len() == 1);
        assert(one.last() == shown@);
        assert(text::joined(one, ", "@) == shown@);
    }
    FileNote {
        message: Message {
            role: MessageRole::User,
            content: content_blocks,
            source: MessageSource::Context(source),
        },
        info,
        text: text::concat2("引用文件 ", path),
    }
}

// ---------------------------------------------------------------------------
// attached files
// ---------------------------------------------------------------------------

/// A stored file.
#[derive(Clone, Debug)]
pub struct FileRef {
    pub attachment_id: String,
    pub name: String,
    pub bytes: u64,
}

/// How far storing an attached file has come.
#[derive(Clone, Debug)]
pub enum DraftUpload {
    Uploading,
    Ready { reference: FileRef },
    Failed { message: String },
}

/// A file that is attached to what is typed.
#[derive(Clone, Debug)]
pub struct DraftFile {
    pub id: String,
    pub path: String,
    pub name: String,
    pub bytes: u64,
    pub state: DraftUpload,
    /// The id of the stored image, where the file is one whose size is known.
    pub image: Option<String>,
}

/// The contents of a stored file.
pub struct FileRefView {
    pub attachment_id: Seq<char>,
    pub name: Seq<char>,
    pub bytes: u64,
}

impl DeepView for FileRef {
    type V = FileRefView;

    open spec fn deep_view(&self) -> FileRefView {
        FileRefView { attachment_id: self.attachment_id@, name: self.name@, bytes: self.bytes }
    }
}

/// How far storing has come.
pub enum UploadView {
    Uploading,
    Ready(FileRefView),
    Failed(Seq<char>),
}

impl DeepView for DraftUpload {
    type V = UploadView;

    open spec fn deep_view(&self) -> UploadView {
        match self {
            DraftUpload::Uploading => UploadView::Uploading,
            DraftUpload::Ready { reference } => UploadView::Ready(reference.deep_view()),
            DraftUpload::Failed { message } => UploadView::Failed(message@),
        }
    }
}

/// The contents of an attached file.
pub struct DraftView {
    pub id: Seq<char>,
    pub path: Seq<char>,
    pub name: Seq<char>,
    pub bytes: u64,
    pub state: UploadView,
    pub image: Option<Seq<char>>,
}

impl DeepView for DraftFile {
    type V = DraftView;

    open spec fn deep_view(&self) -> DraftView {
        DraftView {
            id: self.id@,
            path: self.path@,
            name: self.name@,
            bytes: self.bytes,
            state: self.state.deep_view(),
            image: self.image.deep_view(),
        }
    }
}

/// The attached files, and whether sending was held up by one of them.
pub struct Drafts {
    pub files: Vec<DraftFile>,
    pub held_up: bool,
}

/// The contents of the attached files.
pub struct DraftsView {
    pub files: Seq<DraftView>,
    pub held_up: bool,
}

impl DeepView for Drafts {
    type V = DraftsView;

    open spec fn deep_view(&self) -> DraftsView {
        DraftsView { files: self.files.deep_view(), held_up: self.held_up }
    }
}

/// A file that was picked: its path, the last part of that where it has one,
/// and its size.
pub struct PickedFile {
    pub path: String,
    pub name: Option<String>,
    pub bytes: u64,
}

/// The id of a file that is attached `nanos` after the epoch behind `n` others.
pub open spec fn draft_id(nanos: u64, n: nat) -> Seq<char> {
    "draft-"@ + text::dec(nanos as nat) + "-"@ + text::dec(n)
}

/// A file that was just picked.
pub open spec fn new_draft(
    path: Seq<char>,
    name: Option<Seq<char>>,
    bytes: u64,
    nanos: u64,
    n: nat,
) -> DraftView {
    DraftView {
        id: draft_id(nanos, n),
        path,
        name: match name {
            Some(s) => s,
            None => "file"@,
        },
        bytes,
        state: UploadView::Uploading,
        image: None,
    }
}

/// The place of the first attached file with this id.
pub open spec fn draft_at(files: Seq<DraftView>, id: Seq<char>) -> Option<int>
    decreases files.len(),
{
    if files.len() == 0 {
        None
    } else {
        match draft_at(files.drop_last(), id) {
            Some(i) => Some(i),
            None => if files.last().id == id {
                Some(files.len() - 1)
            } else {
                None
            },
        }
    }
}

/// The attached files with another id than this.
pub open spec fn without_draft(files: Seq<DraftView>, id: Seq<char>) -> Seq<DraftView> {
    files.filter(|d: DraftView| d.id != id)
}

/// The id of the image that a stored file is, where its extension is that of
/// an image and its size could be measured.
pub fn captured_image(
    extension: Option<&str>,
    reference: &FileRef,
    measured: Option<(u32, u32)>,
) -> (r: Option<String>)
    ensures
        r.deep_view() == (if measured is Some && (filetype::low_ext(extension) == Some("png"@)
            || filetype::low_ext(extension) == Some("jpg"@) || filetype::low_ext(extension) == Some(
            "jpeg"@,
        )) {
            Some(reference.attachment_id@)
        } else {
            None
        }),
{
    if filetype::is_image_path(extension) && measured.is_some() {
        Some(reference.attachment_id.clone())
    } else {
        None
    }
}

fn find_draft(files: &Vec<DraftFile>, id: &str) -> (r: Option<usize>)
    ensures
        r is None ==> draft_at(files.deep_view(), id@) is None,
        r is Some ==> r->0 < files@.len() && draft_at(files.deep_view(), id@) == Some(r->0 as int),
{
    let mut i: usize = 0;
    let ghost view = files.deep_view();
    assert(view.take(0) =~= Seq::<DraftView>::empty());
    while i < files.len()
        invariant
            i <= files@.len(),
            view == files.deep_view(),
            draft_at(view.take(i as int), id@) is None,
        decreases files@.len() - i,
    {
        let ghost next = view.take(i + 1);
        assert(next.drop_last() =~= view.take(i as int));
        assert(next.last() == files@[i as int].deep_view());
        if text::same(files[i].id.as_str(), id) {
            proof {
                lemma_draft_stays(view, id@, i + 1);
            }
            return Some(i);
        }
        i = i + 1;
    }
    assert(view.take(i as int) =~= view);
    None
}

proof fn lemma_draft_stays(files: Seq<DraftView>, id: Seq<char>, n: int)
    requires
        0 <= n <= files.len(),
        draft_at(files.take(n), id) is Some,
    ensures
        draft_at(files, id) == draft_at(files.take(n), id),
    decreases files.len() - n,
{
    if n < files.len() {
        assert(files.take(n + 1).drop_last() =~= files.take(n));
        lemma_draft_stays(files, id, n + 1);
    } else {
        assert(files.take(n) =~= files);
    }
}

proof fn lemma_draft_found(files: Seq<DraftView>, id: Seq<char>)
    ensures
        match draft_at(files, id) {
            Some(i) => 0 <= i < files.len() && files[i].id == id,
            None => forall|i: int| 0 <= i < files.len() ==> (#[trigger] files[i]).id != id,
        },
    decreases files.len(),
{
    if files.len() > 0 {
        lemma_draft_found(files.drop_last(), id);
        assert forall|i: int|
            draft_at(files, id) is None && 0 <= i < files.len() implies (#[trigger] files[i]).id
            != id by {
            if i < files.len() - 1 {
                assert(files.drop_last()[i] == files[i]);
            }
        }
    }
}

impl Drafts {
    /// No attached file.
    pub fn new() -> (r: Self)
        ensures
            r.deep_view() == (DraftsView { files: Seq::empty(), held_up: false }),
    {
        let r = Drafts { files: Vec::new(), held_up: false };
        assert(r.files.deep_view() =~= Seq::<DraftView>::empty());
        r
    }

    /// Attaches a file that was picked at `nanos`, to be stored.
    pub fn add(&mut self, file: PickedFile, nanos: u64)
        ensures
            final(self).deep_view() == (DraftsView {
                files: old(self).deep_view().files.push(
                    new_draft(
                        file.path@,
                        file.name.deep_view(),
                        file.bytes,
                        nanos,
                        old(self).files@.len(),
                    ),
                ),
                held_up: old(self).held_up,
            }),
    {
        let stamp: String = text::decimal(nanos);
        let count: String = text::decimal(self.files.len() as u64);
        let head: String = text::concat3("draft-", stamp.as_str(), "-");
        let id: String = text::concat2(head.as_str(), count.as_str());
        let name: String = match file.name {
            Some(s) => s,
            None => "file".to_owned(),
        };
        let ghost before = self.files.deep_view();
        let d = DraftFile {
            id,
            path: file.path,
            name,
            bytes: file.bytes,
            state: DraftUpload::Uploading,
            image: None,
        };
        let ghost shown = d.deep_view();
        self.files.push(d);
        assert(self.files.deep_view() =~= before.push(shown));
    }

    /// Attaches the files that were picked, each at its time, in order. A
    /// complaint about files that are still being stored is taken back.
    pub fn add_attachment_paths(&mut self, picked: Vec<(PickedFile, u64)>)
        ensures
            !final(self).held_up,
            final(self).deep_view().files == added(old(self).deep_view().files, picked@),
    {
        self.held_up = false;
        let ghost all = picked@;
        let ghost start = self.files.deep_view();
        assert(all.take(0) =~= Seq::<(PickedFile, u64)>::empty());
        for p in it: picked
            invariant
                it.seq() == all,
                !self.held_up,
                self.files.deep_view() == added(start, all.take(it.index() as int)),
        {
            let ghost i = it.index() as int;
            assert(all.take(i + 1).drop_last() =~= all.take(i));
            assert(all.take(i + 1).last() == all[i]);
            assert(self.deep_view().files.len() == self.files@.len());
            let (file, nanos) = p;
            self.add(file, nanos);
        }
        assert(all.take(all.len() as int) =~= all);
    }

    /// Notes that a file was stored, or why it was not.
    pub fn stored(&mut self, id: &str, result: Result<(FileRef, Option<String>), String>)
        ensures
            final(self).held_up == old(self).held_up,
            final(self).deep_view().files == ({
                let files = old(self).deep_view().files;
                match draft_at(files, id@) {
                    Some(i) => files.update(
                        i,
                        match result {
                            Ok((reference, image)) => DraftView {
                                state: UploadView::Ready(reference.deep_view()),
                                image: image.deep_view(),
                                ..files[i]
                            },
                            Err(message) => DraftView {
                                state: UploadView::Failed(message@),
                                ..files[i]
                            },
                        },
                    ),
                    None => files,
                }
            }),
    {
        let ghost before = self.files.deep_view();
        match find_draft(&self.files, id) {
            Some(i) => {
                match result {
                    Ok((reference, image)) => {
                        self.files[i].state = DraftUpload::Ready { reference };
                        self.files[i].image = image;
                    },
                    Err(message) => {
                        self.files[i].state = DraftUpload::Failed { message };
                    },
                }
                assert(self.files.deep_view() =~= before.update(
                    i as int,
                    self.files@[i as int].deep_view(),
                ));
            },
            None => {},
        }
    }

    /// Notes that a file that was attached before was stored at another try, or
    /// why it was not.
    pub fn stored_again(&mut self, id: &str, result: Result<FileRef, String>)
        ensures
            final(self).held_up == old(self).held_up,
            final(self).deep_view().files == ({
                let files = old(self).deep_view().files;
                match draft_at(files, id@) {
                    Some(i) => files.update(
                        i,
                        DraftView {
                            state: match result {
                                Ok(reference) => UploadView::Ready(reference.deep_view()),
                                Err(message) => UploadView::Failed(message@),
                            },
                            ..files[i]
                        },
                    ),
                    None => files,
                }
            }),
    {
        let ghost before = self.files.deep_view();
        match find_draft(&self.files, id) {
            Some(i) => {
                match result {
                    Ok(reference) => {
                        self.files[i].state = DraftUpload::Ready { reference };
                    },
                    Err(message) => {
                        self.files[i].state = DraftUpload::Failed { message };
                    },
                }
                assert(self.files.deep_view() =~= before.update(
                    i as int,
                    self.files@[i as int].deep_view(),
                ));
            },
            None => {},
        }
    }

    /// Starts to store a file again; gives its path and name where it is still
    /// attached.
    pub fn retry_attachment(&mut self, id: &str) -> (r: Option<(String, String)>)
        ensures
            final(self).held_up == old(self).held_up,
            ({
                let files = old(self).deep_view().files;
                match draft_at(files, id@) {
                    Some(i) => {
                        &&& r.deep_view() == Some((files[i].path, files[i].name))
                        &&& final(self).deep_view().files == files.update(
                            i,
                            DraftView { state: UploadView::Uploading, ..files[i] },
                        )
                    },
                    None => r is None && final(self).deep_view().files == files,
                }
            }),
    {
        let ghost before = self.files.deep_view();
        match find_draft(&self.files, id) {
            Some(i) => {
                self.files[i].state = DraftUpload::Uploading;
                assert(self.files.deep_view() =~= before.update(
                    i as int,
                    self.files@[i as int].deep_view(),
                ));
                Some((self.files[i].path.clone(), self.files[i].name.clone()))
            },
            None => None,
        }
    }

    /// Takes a file off. Without any left, a complaint about files that are
    /// still being stored is taken back.
    pub fn remove_attachment(&mut self, id: &str)
        ensures
            final(self).deep_view().files == without_draft(old(self).deep_view().files, id@),
            final(self).held_up == (old(self).held_up && final(self).files@.len() > 0),
    {
        let mut kept: Vec<DraftFile> = Vec::new();
        let mut taken: Vec<DraftFile> = Vec::new();
        std::mem::swap(&mut taken, &mut self.files);
        let ghost all = taken@;
        let ghost view = taken.deep_view();
        let ghost keep = |d: DraftView| d.id != id@;
        assert(view.take(0) =~= Seq::<DraftView>::empty());
        assert(kept.deep_view() =~= Seq::<DraftView>::empty());
        proof {
            reveal(Seq::filter);
        }
        for d in it: taken
            invariant
                it.seq() == all,
                view.len() == all.len(),
                forall|i: int| 0 <= i < all.len() ==> view[i] == (#[trigger] all[i]).deep_view(),
                keep == (|d: DraftView| d.id != id@),
                kept.deep_view() == view.take(it.index() as int).filter(keep),
        {
            let ghost i = it.index() as int;
            let ghost next = view.take(i + 1);
            proof {
                reveal(Seq::filter);
                assert(next.drop_last() =~= view.take(i));
                assert(next.last() == all[i].deep_view());
            }
            let ghost before = kept.deep_view();
            if !text::same(d.id.as_str(), id) {
                let ghost shown = d.deep_view();
                kept.push(d);
                assert(kept.deep_view() =~= before.push(shown));
            }
        }
        assert(view.take(all.len() as int) =~= view);
        self.files = kept;
        if self.files.len() == 0 {
            self.held_up = false;
        }
    }
}

/// The attached files after more were picked.
pub open spec fn added(files: Seq<DraftView>, picked: Seq<(PickedFile, u64)>) -> Seq<DraftView>
    decreases picked.len(),
{
    if picked.len() == 0 {
        files
    } else {
        let head = added(files, picked.drop_last());
        let (file, nanos) = picked.last();
        head.push(
            new_draft(file.path@, file.name.deep_view(), file.bytes, nanos, head.len()),
        )
    }
}

proof fn lemma_kept(files: Seq<DraftView>, id: Seq<char>, d: DraftView)
    ensures
        without_draft(files, id).contains(d) <==> files.contains(d) && d.id != id,
    decreases files.len(),
{
    reveal(Seq::filter);
    if files.len() > 0 {
        let head = files.drop_last();
        let last = files.last();
        lemma_kept(head, id, d);
        assert(files =~= head.push(last));
        assert(files.contains(d) <==> head.contains(d) || d == last) by {
            if head.contains(d) {
                let i = choose|i: int| 0 <= i < head.len() && head[i] == d;
                assert(files[i] == d);
            }
            if d == last {
                assert(files[files.len() - 1] == d);
            }
        }
        let kept = without_draft(head, id);
        if last.id != id {
            let all = kept.push(last);
            assert(all.contains(d) <==> kept.contains(d) || d == last) by {
                if kept.contains(d) {
                    let i = choose|i: int| 0 <= i < kept.len() && kept[i] == d;
                    assert(all[i] == d);
                }
                if d == last {
                    assert(all[all.len() - 1] == d);
                }
            }
        }
    }
}

/// A removed file is attached no more, and all others stay.
pub proof fn removed_draft_is_gone(files: Seq<DraftView>, id: Seq<char>)
    ensures
        draft_at(without_draft(files, id), id) is None,
        forall|d: DraftView|
            #[trigger] without_draft(files, id).contains(d) <==> files.contains(d) && d.id != id,
{
    let kept = without_draft(files, id);
    assert forall|d: DraftView| #[trigger] kept.contains(d) <==> files.contains(d) && d.id
        != id by {
        lemma_kept(files, id, d);
    }
    lemma_draft_found(kept, id);
    match draft_at(kept, id) {
        Some(i) => {
            assert(kept.contains(kept[i]));
        },
        None => {},
    }
}

/// What the card of an attached file says.
#[derive(Debug)]
pub struct DraftCard {
    pub name: String,
    pub meta: String,
    /// Whether a click on it stores the file again.
    pub failed: bool,
}

/// What the card of an attached file says.
pub fn draft_card(d: &DraftFile) -> (r: DraftCard)
    ensures
        match d.deep_view().state {
            UploadView::Uploading => r.name@ == d.name@ && r.meta@ == "上传中…"@ && !r.failed,
            UploadView::Ready(f) => r.name@ == f.name && r.meta@ == filetype::shown_extension(
                f.name,
            ) + " "@ + usage::size_of_file(f.bytes) && !r.failed,
            UploadView::Failed(_) => r.name@ == d.name@ && r.meta@ == "上传失败，点击重试"@
                && r.failed,
        },
{
    match &d.state {
        DraftUpload::Uploading => DraftCard {
            name: d.name.clone(),
            meta: "上传中…".to_owned(),
            failed: false,
        },
        DraftUpload::Ready { reference } => {
            let ext: String = filetype::extension_of(reference.name.as_str());
            let size: String = usage::file_size_text(reference.bytes);
            DraftCard {
                name: reference.name.clone(),
                meta: text::concat3(ext.as_str(), " ", size.as_str()),
                failed: false,
            }
        },
        DraftUpload::Failed { message: _ } => DraftCard {
            name: d.name.clone(),
            meta: "上传失败，点击重试".to_owned(),
            failed: true,
        },
    }
}

// ---------------------------------------------------------------------------
// sending
// ---------------------------------------------------------------------------

/// What pressing the send button, or enter, leads to.
#[derive(Debug)]
pub enum SendGate {
    /// A workspace has to be chosen first.
    ChooseWorkspace,
    /// Another session is running.
    Stay,
    /// There is nothing to send; `commit` moves the agent to the session shown.
    Nothing { commit: bool },
    /// `text` is sent, with the agent moved to the session shown and the
    /// running turn cut short where that is said.
    Go { commit: bool, interrupt: bool, text: String },
}

/// What there is to send, and after what.
pub open spec fn goes_out(
    r: SendGate,
    commit: bool,
    interrupt: bool,
    draft: Seq<char>,
    attached: bool,
) -> bool {
    if text::trimmed(draft).len() == 0 && !attached {
        r == SendGate::Nothing { commit }
    } else {
        match r {
            SendGate::Go { commit: c, interrupt: i, text } => c == commit && i == interrupt && text@
                == text::trimmed(draft),
            _ => false,
        }
    }
}

/// What the send button leads to: a new session needs a workspace, and another
/// running session is not disturbed. While a turn runs, it is cut short where
/// the settings say so.
pub fn send_gate(
    locked: bool,
    split: ViewSplit,
    draft: &str,
    attached: bool,
    enter: EnterBehavior,
) -> (r: SendGate)
    ensures
        locked ==> r is ChooseWorkspace,
        !locked && split.agent_busy && split.peeking ==> r is Stay,
        !locked && !(split.agent_busy && split.peeking) ==> goes_out(
            r,
            split.peeking,
            split.agent_busy && enter == EnterBehavior::Interrupt,
            draft@,
            attached,
        ),
{
    if locked {
        return SendGate::ChooseWorkspace;
    }
    if split.composer_inert() {
        return SendGate::Stay;
    }
    let commit: bool = split.needs_commit();
    let text: String = text::trim(draft);
    if text.as_str().is_empty() && !attached {
        return SendGate::Nothing { commit };
    }
    let interrupt: bool = split.agent_busy && match enter {
        EnterBehavior::Queue => false,
        EnterBehavior::Interrupt => true,
    };
    SendGate::Go { commit, interrupt, text }
}

/// What the enter key leads to: as with the button, but nothing happens where
/// there is nothing to send.
pub fn enter_gate(
    locked: bool,
    split: ViewSplit,
    draft: &str,
    attached: bool,
    enter: EnterBehavior,
) -> (r: SendGate)
    ensures
        ({
            let idle = text::trimmed(draft@).len() == 0 && !attached;
            &&& idle ==> r == (SendGate::Nothing { commit: false })
            &&& !idle && locked ==> r is ChooseWorkspace
            &&& !idle && !locked && split.agent_busy && split.peeking ==> r is Stay
            &&& !idle && !locked && !(split.agent_busy && split.peeking) ==> goes_out(
                r,
                split.peeking,
                split.agent_busy && enter == EnterBehavior::Interrupt,
                draft@,
                attached,
            )
        }),
{
    let text: String = text::trim(draft);
    if text.as_str().is_empty() && !attached {
        return SendGate::Nothing { commit: false };
    }
    send_gate(locked, split, draft, attached, enter)
}

/// The title of a session before its first message.
pub open spec fn untitled() -> Seq<char> {
    "新会话"@
}

/// The sessions at hand after `text` was sent in one of them: the first message
/// gives a session its title.
pub open spec fn titled(metas: Seq<MetaView>, id: Seq<char>, text: Seq<char>) -> Seq<MetaView> {
    match roster::meta_at(metas, id, 0) {
        Some(i) => if metas[i].title == untitled() && text.len() > 0 {
            metas.update(
                i,
                MetaView { title: text::first_chars(text, 30), blank: false, ..metas[i] },
            )
        } else {
            metas
        },
        None => metas,
    }
}

/// Gives the session `id` its title from the first message that is sent in it:
/// its first 30 characters. Returns the title to log.
pub fn title_session(metas: &mut Vec<SessionMeta>, id: &str, text: &str) -> (r: Option<String>)
    ensures
        final(metas).deep_view() == titled(old(metas).deep_view(), id@, text@),
        r.deep_view() == (match roster::meta_at(old(metas).deep_view(), id@, 0) {
            Some(i) => if old(metas).deep_view()[i].title == untitled() && text@.len() > 0 {
                Some(text::first_chars(text@, 30))
            } else {
                None
            },
            None => None,
        }),
{
    let ghost before = metas.deep_view();
    match roster::find_meta(metas, id) {
        Some(i) => {
            assert(before[i as int] == metas@[i as int].deep_view());
            if text::same(metas[i].title.as_str(), "新会话") && text::char_count(text) > 0 {
                let title: String = text::take_chars(text, 30);
                metas[i].title = title.clone();
                metas[i].blank = false;
                assert(metas.deep_view() =~= before.update(
                    i as int,
                    MetaView { title: title@, blank: false, ..before[i as int] },
                ));
                Some(title)
            } else {
                None
            }
        },
        None => None,
    }
}

/// What is shown of an attached file that is sent.
#[derive(Debug)]
pub enum SentCard {
    File { name: String, bytes: u64 },
    /// An image, by the name that its bytes are kept under.
    Image { object: String },
}

/// A message that is sent.
pub struct Outgoing {
    pub message: Message,
    pub cards: Vec<SentCard>,
    /// The text to show, where there is one.
    pub text: Option<String>,
}

/// What sending comes to.
pub enum Sending {
    /// An attached file is not stored yet.
    HeldUp,
    Nothing,
    Sent(Outgoing),
}

/// Whether an attached file is stored.
pub open spec fn is_ready(d: DraftView) -> bool {
    d.state is Ready
}

/// Whether all attached files are stored.
pub open spec fn all_ready(files: Seq<DraftView>) -> bool {
    forall|i: int| 0 <= i < files.len() ==> is_ready(#[trigger] files[i])
}

/// The name that the bytes of a stored image are kept under.
pub open spec fn object_name(id: Seq<char>) -> Seq<char> {
    match text::behind(id, "sha256:"@) {
        Some(hex) => hex,
        None => id,
    }
}

/// Whether a part of a message stands for a stored file.
pub open spec fn stands_for(b: ContentBlock, d: DraftView) -> bool {
    match (b, d.image, d.state) {
        (ContentBlock::Image { attachment_id }, Some(id), _) => attachment_id@ == id,
        (ContentBlock::File { name, bytes, attachment_id }, None, UploadView::Ready(f)) => name@
            == f.name && bytes == f.bytes && attachment_id@ == f.attachment_id,
        _ => false,
    }
}

/// Whether a card shows a stored file.
pub open spec fn shows(c: SentCard, d: DraftView) -> bool {
    match (c, d.image, d.state) {
        (SentCard::Image { object }, Some(id), _) => object@ == object_name(id),
        (SentCard::File { name, bytes }, None, UploadView::Ready(f)) => name@ == f.name && bytes
            == f.bytes,
        _ => false,
    }
}

/// Whether a message holds the stored files, in order, and then the text where
/// there is one.
pub open spec fn carries(m: Outgoing, files: Seq<DraftView>, text: Seq<char>) -> bool {
    &&& m.message.role == MessageRole::User
    &&& m.message.source == MessageSource::User
    &&& m.cards@.len() == files.len()
    &&& forall|i: int| 0 <= i < files.len() ==> shows(#[trigger] m.cards@[i], files[i])
    &&& m.message.content@.len() == files.len() + (if text.len() > 0 {
        1int
    } else {
        0
    })
    &&& forall|i: int|
        0 <= i < files.len() ==> stands_for(#[trigger] m.message.content@[i], files[i])
    &&& text.len() > 0 ==> (m.message.content@.last() matches ContentBlock::Text { text: t } && t@
        == text)
    &&& m.text.deep_view() == (if text.len() > 0 {
        Some(text)
    } else {
        None
    })
}

/// Whether `r` is what sending `text` with these files comes to.
pub open spec fn is_sending(r: Sending, files: Seq<DraftView>, text: Seq<char>) -> bool {
    if !all_ready(files) {
        r is HeldUp
    } else if files.len() == 0 && text.len() == 0 {
        r is Nothing
    } else {
        match r {
            Sending::Sent(m) => carries(m, files, text),
            _ => false,
        }
    }
}

fn ready_parts(d: &DraftFile) -> (r: Option<(ContentBlock, SentCard)>)
    ensures
        match r {
            Some((b, c)) => is_ready(d.deep_view()) && stands_for(b, d.deep_view()) && shows(
                c,
                d.deep_view(),
            ),
            None => !is_ready(d.deep_view()),
        },
{
    match &d.state {
        DraftUpload::Ready { reference } => {
            match &d.image {
                Some(id) => {
                    let object: String = match text::strip_prefix(id.as_str(), "sha256:") {
                        Some(hex) => hex,
                        None => id.clone(),
                    };
                    Some(
                        (ContentBlock::Image { attachment_id: id.clone() }, SentCard::Image { object }),
                    )
                },
                None => Some(
                    (
                        ContentBlock::File {
                            name: reference.name.clone(),
                            bytes: reference.bytes,
                            attachment_id: reference.attachment_id.clone(),
                        },
                        SentCard::File { name: reference.name.clone(), bytes: reference.bytes },
                    ),
                ),
            }
        },
        _ => None,
    }
}

impl Drafts {
    /// Sends `text` with the attached files. Nothing is sent while one of them
    /// is not stored; they stay attached then.
    pub fn send_user_turn(&mut self, text: &str) -> (r: Sending)
        ensures
            is_sending(r, old(self).deep_view().files, text@),
            final(self).held_up == r is HeldUp,
            final(self).deep_view().files == (if r is HeldUp {
                old(self).deep_view().files
            } else {
                Seq::empty()
            }),
    {
        let ghost files = self.files.deep_view();
        let mut content: Vec<ContentBlock> = Vec::new();
        let mut cards: Vec<SentCard> = Vec::new();
        let mut i: usize = 0;
        while i < self.files.len()
            invariant
                i <= self.files@.len(),
                files == self.files.deep_view(),
                files == old(self).deep_view().files,
                content@.len() == i,
                cards@.len() == i,
                forall|k: int| 0 <= k < i ==> is_ready(#[trigger] files[k]),
                forall|k: int| 0 <= k < i ==> stands_for(#[trigger] content@[k], files[k]),
                forall|k: int| 0 <= k < i ==> shows(#[trigger] cards@[k], files[k]),
            decreases self.files@.len() - i,
        {
            assert(files[i as int] == self.files@[i as int].deep_view());
            match ready_parts(&self.files[i]) {
                Some((block, card)) => {
                    content.push(block);
                    cards.push(card);
                },
                None => {
                    assert(!is_ready(files[i as int]));
                    self.held_up = true;
                    return Sending::HeldUp;
                },
            }
            i = i + 1;
        }
        self.held_up = false;
        self.files = Vec::new();
        assert(self.files.deep_view() =~= Seq::<DraftView>::empty());
        let shown: Option<String> = if text::char_count(text) > 0 {
            content.push(ContentBlock::Text { text: text.to_owned() });
            Some(text.to_owned())
        } else {
            None
        };
        if content.len() == 0 {
            return Sending::Nothing;
        }
        let message = Message { role: MessageRole::User, content, source: MessageSource::User };
        Sending::Sent(Outgoing { message, cards, text: shown })
    }
}

/// A message goes out only with every attached file stored, and it holds each
/// of them.
pub proof fn sent_files_are_stored(r: Sending, files: Seq<DraftView>, text: Seq<char>)
    requires
        is_sending(r, files, text),
        r is Sent,
    ensures
        all_ready(files),
        forall|i: int|
            0 <= i < files.len() ==> exists|k: int|
                0 <= k < r->Sent_0.message.content@.len() && stands_for(
                    #[trigger] r->Sent_0.message.content@[k],
                    #[trigger] files[i],
                ),
{
    assert forall|i: int| 0 <= i < files.len() implies exists|k: int|
        0 <= k < r->Sent_0.message.content@.len() && stands_for(
            #[trigger] r->Sent_0.message.content@[k],
            #[trigger] files[i],
        ) by {
        assert(stands_for(r->Sent_0.message.content@[i], files[i]));
    }
}

/// A message that goes out says what was typed, behind everything attached; the
/// transcript shows the same text and a card for each file.
pub proof fn sent_message_says_what_was_typed(
    r: Sending,
    files: Seq<DraftView>,
    typed: Seq<char>,
    i: int,
)
    requires
        is_sending(r, files, typed),
        r is Sent,
    ensures
        ({
            let m = r->Sent_0;
            &&& crate::session::plain_text(m.message.content@) == typed
            &&& m.message.content@.filter(
                |b: ContentBlock| b is File || b is Image,
            ).len() == files.len()
            &&& m.message.role == MessageRole::User
            &&& m.message.source == MessageSource::User
            &&& m.cards@.len() == files.len()
            &&& m.text is Some <==> typed.len() > 0
            &&& m.text matches Some(t) ==> t@ == typed
            &&& 0 <= i < files.len() && files[i].image is None ==> (
            files[i].state matches UploadView::Ready(f) && m.message.content@[i] is File && (
            m.cards@[i] is File) && m.message.content@[i]->File_attachment_id@ == f.attachment_id
                && m.message.content@[i]->File_name@ == f.name && m.message.content@[i]->bytes
                == f.bytes && m.cards@[i]->name@ == f.name && m.cards@[i]->bytes == f.bytes)
            &&& 0 <= i < files.len() && files[i].image is Some ==> m.message.content@[i] is Image
                && m.cards@[i] is Image && m.message.content@[i]->Image_attachment_id@
                == files[i].image->0
        }),
{
    let m = r->Sent_0;
    let content = m.message.content@;
    let n = files.len() as int;
    assert(content.take(n) =~= content.subrange(0, n));
    lemma_only_attached(content.take(n), files);
    if typed.len() > 0 {
        assert(content =~= content.take(n).push(content.last()));
        crate::session::text_of_a_message_goes_on(content.take(n), content.last());
        assert(crate::session::plain_text(content) =~= typed);
        reveal(Seq::filter);
        assert(content.drop_last() =~= content.take(n));
    } else {
        assert(content.take(n) =~= content);
        assert(typed =~= Seq::<char>::empty());
    }
    if 0 <= i < files.len() {
        assert(stands_for(content[i], files[i]));
        assert(shows(m.cards@[i], files[i]));
        assert(is_ready(files[i]));
    }
}

proof fn lemma_only_attached(content: Seq<ContentBlock>, files: Seq<DraftView>)
    requires
        content.len() <= files.len(),
        forall|i: int| 0 <= i < content.len() ==> stands_for(#[trigger] content[i], files[i]),
    ensures
        crate::session::plain_text(content) == Seq::<char>::empty(),
        content.filter(|b: ContentBlock| b is File || b is Image).len() == content.len(),
    decreases content.len(),
{
    reveal(Seq::filter);
    if content.len() > 0 {
        let head = content.drop_last();
        assert forall|i: int| 0 <= i < head.len() implies stands_for(#[trigger] head[i], files[i])
            by {
            assert(head[i] == content[i]);
        }
        lemma_only_attached(head, files);
        assert(stands_for(content[content.len() - 1], files[content.len() - 1]));
        assert(head.push(content.last()) =~= content);
        crate::session::text_of_a_message_goes_on(head, content.last());
    }
}

/// The words of a text are all of it but the blanks: put together they are the
/// text without its blanks, and none is empty or holds a blank.
pub proof fn words_are_all_but_the_blanks(s: Seq<char>)
    ensures
        words(s).flatten() == s.filter(|c: char| !text::is_white(c)),
        forall|k: int|
            0 <= k < words(s).len() ==> (#[trigger] words(s)[k]).len() > 0 && forall|j: int|
                0 <= j < words(s)[k].len() ==> !text::is_white(#[trigger] words(s)[k][j]),
    decreases s.len(),
{
    let keep = |c: char| !text::is_white(c);
    if s.len() == 0 {
        reveal(Seq::filter);
        assert(words(s).flatten() =~= s.filter(keep));
    } else if text::is_white(s[0]) {
        let rest = s.drop_first();
        words_are_all_but_the_blanks(rest);
        assert(s =~= seq![s[0]] + rest);
        Seq::filter_distributes_over_add(seq![s[0]], rest, keep);
        lemma_blank_dropped(s[0]);
        assert(s.filter(keep) =~= rest.filter(keep));
    } else {
        lemma_word_fits(s);
        let n = word_len(s) as int;
        let word = s.take(n);
        let rest = s.skip(n);
        lemma_word_is_dark(s);
        words_are_all_but_the_blanks(rest);
        assert(s =~= word + rest);
        Seq::filter_distributes_over_add(word, rest, keep);
        lemma_dark_kept(word);
        let all = seq![word] + words(rest);
        assert(all.first() == word);
        assert(all.drop_first() =~= words(rest));
        assert(all.flatten() =~= word + words(rest).flatten());
        assert forall|k: int| 0 <= k < all.len() implies (#[trigger] all[k]).len() > 0 && forall|
            j: int,
        |
            0 <= j < all[k].len() ==> !text::is_white(#[trigger] all[k][j]) by {
            if k > 0 {
                assert(all[k] == words(rest)[k - 1]);
            }
        }
    }
}

proof fn lemma_blank_dropped(c: char)
    requires
        text::is_white(c),
    ensures
        seq![c].filter(|c: char| !text::is_white(c)) == Seq::<char>::empty(),
{
    reveal_with_fuel(Seq::filter, 2);
    assert(seq![c].drop_last() =~= Seq::<char>::empty());
}

proof fn lemma_word_is_dark(s: Seq<char>)
    ensures
        word_len(s) <= s.len(),
        s.len() > 0 && !text::is_white(s[0]) ==> word_len(s) > 0,
        forall|j: int| 0 <= j < word_len(s) ==> !text::is_white(#[trigger] s[j]),
    decreases s.len(),
{
    if s.len() > 0 && !text::is_white(s[0]) {
        lemma_word_is_dark(s.drop_first());
        assert forall|j: int| 0 <= j < word_len(s) implies !text::is_white(#[trigger] s[j]) by {
            if j > 0 {
                assert(s.drop_first()[j - 1] == s[j]);
            }
        }
    }
}

proof fn lemma_dark_kept(s: Seq<char>)
    requires
        forall|j: int| 0 <= j < s.len() ==> !text::is_white(#[trigger] s[j]),
    ensures
        s.filter(|c: char| !text::is_white(c)) == s,
    decreases s.len(),
{
    reveal(Seq::filter);
    if s.len() > 0 {
        let head = s.drop_last();
        assert forall|j: int| 0 <= j < head.len() implies !text::is_white(#[trigger] head[j]) by {
            assert(head[j] == s[j]);
        }
        lemma_dark_kept(head);
        assert(!text::is_white(s[s.len() - 1]));
        assert(head.push(s.last()) =~= s);
    }
}

/// A path behind an `@` is mentioned as it stands; a word without one mentions
/// nothing.
pub proof fn path_behind_a_sign_is_mentioned(path: Seq<char>, word: Seq<char>)
    ensures
        path.len() > 0 && !marks().contains(path[0]) && !marks().contains(path.last()) ==> mention(
            "@"@ + path,
        ) == Some(path),
        word.len() == 0 || word[0] != '@' ==> mention(word) is None,
        mention("@"@) is None,
{
    reveal_strlit("@");
    let s = "@"@ + path;
    assert(s.take(1) =~= "@"@);
    assert(s.skip(1) =~= path);
    if text::begins(word, "@"@) {
        assert(word.take(1)[0] == word[0]);
    }
    assert("@"@.skip(1) =~= Seq::<char>::empty());
    assert("@"@.take(1) =~= "@"@);
}

/// The mentions of a text are those of its words, each and in order.
pub proof fn every_mention_is_found(list: Seq<Seq<char>>, word: Seq<char>, path: Seq<char>)
    ensures
        mention(word) == Some(path) ==> mentions(list.push(word)) == mentions(list).push(path),
        mention(word) is None ==> mentions(list.push(word)) == mentions(list),
        mentions(Seq::empty()) == Seq::<Seq<char>>::empty(),
{
    assert(list.push(word).drop_last() =~= list);
}

/// A file is put in whole up to the limit; a longer one is cut behind it, and
/// that is said.
pub proof fn long_file_is_cut(content: Seq<char>)
    ensures
        content.len() <= 120000 ==> put_in(content) == content,
        content.len() > 120000 ==> put_in(content).take(120000) == content.take(120000)
            && put_in(content).len() > 120000,
{
    reveal_strlit("\n…（内容过长已截断）");
    if content.len() > 120000 {
        assert(put_in(content).take(120000) =~= content.take(120000));
    }
}

/// Every file that was found and could be read is put in, once, under its path
/// and with its text; nothing else is.
pub proof fn found_files_are_put_in_once(
    found: Seq<(Seq<char>, Option<Seq<char>>)>,
    path: Seq<char>,
    i: int,
    j: int,
)
    ensures
        0 <= i < found.len() && found[i].1 is Some ==> refers_to(collected(found), found[i].0),
        0 <= i < j < collected(found).len() ==> collected(found)[i].0 != collected(found)[j].0,
        0 <= i < collected(found).len() ==> exists|k: int|
            0 <= k < found.len() && (#[trigger] found[k]).0 == collected(found)[i].0 && found[k].1
                is Some && collected(found)[i].1 == put_in(found[k].1->0),
    decreases found.len(),
{
    if found.len() > 0 {
        let head = found.drop_last();
        let before = collected(head);
        let all = collected(found);
        let last = found.last();
        found_files_are_put_in_once(head, path, i, j);
        assert forall|k: int| 0 <= k < before.len() implies all[k] == #[trigger] before[k] by {}
        if 0 <= i < found.len() && found[i].1 is Some {
            if i < head.len() {
                assert(head[i] == found[i]);
                let k = choose|k: int|
                    0 <= k < before.len() && (#[trigger] before[k]).0 == found[i].0;
                assert(all[k].0 == found[i].0);
            } else if !refers_to(before, last.0) {
                assert(all[all.len() - 1].0 == last.0);
            }
        }
        if 0 <= i < all.len() {
            if i < before.len() {
                let k = choose|k: int|
                    0 <= k < head.len() && (#[trigger] head[k]).0 == before[i].0 && head[k].1
                        is Some && before[i].1 == put_in(head[k].1->0);
                assert(found[k] == head[k]);
            } else {
                assert(found[found.len() - 1] == last);
            }
        }
    }
}

/// Picked files are added behind those that are there, each with its path, its
/// name and its size, and not stored yet.
pub proof fn picked_files_are_added(
    files: Seq<DraftView>,
    picked: Seq<(PickedFile, u64)>,
    i: int,
)
    ensures
        added(files, picked).len() == files.len() + picked.len(),
        0 <= i < files.len() ==> added(files, picked)[i] == files[i],
        0 <= i < picked.len() ==> ({
            let d = added(files, picked)[files.len() + i];
            &&& d.path == picked[i].0.path@
            &&& d.bytes == picked[i].0.bytes
            &&& d.state is Uploading
            &&& d.image is None
            &&& picked[i].0.name matches Some(n) ==> d.name == n@
        }),
    decreases picked.len(),
{
    if picked.len() > 0 {
        picked_files_are_added(files, picked.drop_last(), i);
        if 0 <= i < picked.len() - 1 {
            assert(picked.drop_last()[i] == picked[i]);
        }
    }
}

/// A draft is found by its id: the first that has it.
pub proof fn draft_is_found_by_its_id(files: Seq<DraftView>, id: Seq<char>, i: int)
    requires
        0 <= i < files.len(),
        files[i].id == id,
        forall|j: int| 0 <= j < i ==> (#[trigger] files[j]).id != id,
    ensures
        draft_at(files, id) == Some(i),
    decreases files.len(),
{
    let head = files.drop_last();
    if i < head.len() {
        draft_is_found_by_its_id(head, id, i);
    } else {
        lemma_no_draft(head, id);
    }
}

proof fn lemma_no_draft(files: Seq<DraftView>, id: Seq<char>)
    requires
        forall|j: int| 0 <= j < files.len() ==> (#[trigger] files[j]).id != id,
    ensures
        draft_at(files, id) is None,
    decreases files.len(),
{
    if files.len() > 0 {
        let head = files.drop_last();
        assert forall|j: int| 0 <= j < head.len() implies (#[trigger] head[j]).id != id by {
            assert(head[j] == files[j]);
        }
        assert(files[files.len() - 1].id != id);
        lemma_no_draft(head, id);
    }
}

/// The first message titles its session and no other: the title is the start of
/// the text, and a session that has one keeps it.
pub proof fn first_message_titles_its_session(
    metas: Seq<MetaView>,
    id: Seq<char>,
    words: Seq<char>,
    i: int,
)
    requires
        0 <= i < metas.len(),
    ensures
        ({
            let after = titled(metas, id, words);
            &&& after.len() == metas.len()
            &&& after[i].id == metas[i].id
            &&& after[i].cwd == metas[i].cwd
            &&& metas[i].id != id || metas[i].title != "新会话"@ ==> after[i] == metas[i]
            &&& after[i] != metas[i] ==> after[i].title == words.take(
                if words.len() < 30 {
                    words.len() as int
                } else {
                    30
                },
            )
            &&& words.len() == 0 ==> after == metas
            &&& metas[i].id == id && metas[i].title == "新会话"@ && words.len() > 0 && (forall|
                j: int,
            |
                0 <= j < i ==> (#[trigger] metas[j]).id != id) ==> !after[i].blank && after[i].title
                == words.take(
                if words.len() < 30 {
                    words.len() as int
                } else {
                    30
                },
            )
        }),
{
    roster::session_is_found_by_its_id(metas, id, 0);
    if words.len() <= 30 {
        assert(words.take(words.len() as int) =~= words);
    }
}

} // verus!
