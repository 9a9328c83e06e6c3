//! Kinds of files, by name.

use crate::text;
use vstd::prelude::*;

verus! {

/// What a file is, as far as its icon goes.
#[derive(Clone, Copy, Debug, PartialEq, Eq, Structural)]
pub enum FileKind {
    Folder,
    Code,
    Excel,
    Html,
    Image,
    Markdown,
    Other,
    Pdf,
    Ppt,
    Video,
    Word,
}

impl FileKind {
    /// The name of the icon.
    pub fn asset_stem(self) -> (r: &'static str)
        ensures
            r@ == stem_of(self),
    {
        match self {
            FileKind::Folder => "folder",
            FileKind::Code => "code",
            FileKind::Excel => "excel",
            FileKind::Html => "html",
            FileKind::Image => "image",
            FileKind::Markdown => "markdown",
            FileKind::Other => "other",
            FileKind::Pdf => "pdf",
            FileKind::Ppt => "ppt",
            FileKind::Video => "video",
            FileKind::Word => "word",
        }
    }

    /// The colour of the icon: red, green and blue.
    pub fn color(self) -> (r: (u8, u8, u8))
        ensures
            r == color_of(self),
    {
        match self {
            FileKind::Folder => (247, 173, 49),
            FileKind::Code => (65, 118, 230),
            FileKind::Html => (65, 118, 230),
            FileKind::Markdown => (65, 118, 230),
            FileKind::Excel => (34, 197, 94),
            FileKind::Image => (139, 118, 246),
            FileKind::Video => (139, 118, 246),
            FileKind::Other => (207, 211, 214),
            FileKind::Pdf => (236, 19, 19),
            FileKind::Ppt => (245, 158, 11),
            FileKind::Word => (86, 134, 254),
        }
    }
}

/// The name of the icon of a kind.
pub open spec fn stem_of(k: FileKind) -> Seq<char> {
    match k {
        FileKind::Folder => "folder"@,
        FileKind::Code => "code"@,
        FileKind::Excel => "excel"@,
        FileKind::Html => "html"@,
        FileKind::Image => "image"@,
        FileKind::Markdown => "markdown"@,
        FileKind::Other => "other"@,
        FileKind::Pdf => "pdf"@,
        FileKind::Ppt => "ppt"@,
        FileKind::Video => "video"@,
        FileKind::Word => "word"@,
    }
}

/// The colour of the icon of a kind.
pub open spec fn color_of(k: FileKind) -> (u8, u8, u8) {
    match k {
        FileKind::Folder => (247, 173, 49),
        FileKind::Code | FileKind::Html | FileKind::Markdown => (65, 118, 230),
        FileKind::Excel => (34, 197, 94),
        FileKind::Image | FileKind::Video => (139, 118, 246),
        FileKind::Other => (207, 211, 214),
        FileKind::Pdf => (236, 19, 19),
        FileKind::Ppt => (245, 158, 11),
        FileKind::Word => (86, 134, 254),
    }
}

/// Whether a whole name is that of prose.
pub open spec fn prose_name(s: Seq<char>) -> bool {
    ||| s == "readme"@
    ||| s == "changelog"@
    ||| s == "contributing"@
}

fn is_prose_name(s: &str) -> (r: bool)
    ensures
        r == prose_name(s@),
{
    text::same(s, "readme") || text::same(s, "changelog") || text::same(s, "contributing")
}

/// Whether a whole name is that of a build or package file.
pub open spec fn build_name(s: Seq<char>) -> bool {
    ||| s == "makefile"@
    ||| s == "gnumakefile"@
    ||| s == "bsdmakefile"@
    ||| s == "dockerfile"@
    ||| s == "gemfile"@
    ||| s == "guardfile"@
    ||| s == "package.json"@
    ||| s == "package-lock.json"@
    ||| s == "npm-shrinkwrap.json"@
    ||| s == "docker-compose.yaml"@
    ||| s == "docker-compose.yml"@
    ||| s == "compose.yaml"@
    ||| s == "compose.yml"@
    ||| s == "cmakelists.txt"@
}

fn is_build_name(s: &str) -> (r: bool)
    ensures
        r == build_name(s@),
{
    text::same(s, "makefile") || text::same(s, "gnumakefile") || text::same(s, "bsdmakefile") || text::same(s, "dockerfile") || text::same(s, "gemfile") || text::same(s, "guardfile") || text::same(s, "package.json") || text::same(s, "package-lock.json") || text::same(s, "npm-shrinkwrap.json") || text::same(s, "docker-compose.yaml") || text::same(s, "docker-compose.yml") || text::same(s, "compose.yaml") || text::same(s, "compose.yml") || text::same(s, "cmakelists.txt")
}

/// Whether a name that starts with a dot is that of a known settings file.
pub open spec fn dot_name(s: Seq<char>) -> bool {
    ||| s == ".bash_profile"@
    ||| s == ".bashrc"@
    ||| s == ".profile"@
    ||| s == ".zprofile"@
    ||| s == ".zshrc"@
    ||| s == ".env"@
    ||| s == ".gitattributes"@
    ||| s == ".gitconfig"@
    ||| s == ".gitignore"@
    ||| s == ".gitmodules"@
    ||| s == ".mailmap"@
    ||| s == ".commit_editmsg"@
}

fn is_dot_name(s: &str) -> (r: bool)
    ensures
        r == dot_name(s@),
{
    text::same(s, ".bash_profile") || text::same(s, ".bashrc") || text::same(s, ".profile") || text::same(s, ".zprofile") || text::same(s, ".zshrc") || text::same(s, ".env") || text::same(s, ".gitattributes") || text::same(s, ".gitconfig") || text::same(s, ".gitignore") || text::same(s, ".gitmodules") || text::same(s, ".mailmap") || text::same(s, ".commit_editmsg")
}

/// Whether an extension is of kind Markdown.
pub open spec fn markdown_ext_name(s: Seq<char>) -> bool {
    ||| s == "md"@
    ||| s == "mdx"@
    ||| s == "markdown"@
}

fn is_markdown_ext_name(s: &str) -> (r: bool)
    ensures
        r == markdown_ext_name(s@),
{
    text::same(s, "md") || text::same(s, "mdx") || text::same(s, "markdown")
}

/// Whether an extension is of kind Pdf.
pub open spec fn pdf_ext_name(s: Seq<char>) -> bool {
    ||| s == "pdf"@
}

fn is_pdf_ext_name(s: &str) -> (r: bool)
    ensures
        r == pdf_ext_name(s@),
{
    text::same(s, "pdf")
}

/// Whether an extension is of kind Ppt.
pub open spec fn ppt_ext_name(s: Seq<char>) -> bool {
    ||| s == "ppt"@
    ||| s == "pptx"@
    ||| s == "key"@
}

fn is_ppt_ext_name(s: &str) -> (r: bool)
    ensures
        r == ppt_ext_name(s@),
{
    text::same(s, "ppt") || text::same(s, "pptx") || text::same(s, "key")
}

/// Whether an extension is of kind Word.
pub open spec fn word_ext_name(s: Seq<char>) -> bool {
    ||| s == "doc"@
    ||| s == "docx"@
    ||| s == "rtf"@
    ||| s == "odt"@
    ||| s == "pages"@
}

fn is_word_ext_name(s: &str) -> (r: bool)
    ensures
        r == word_ext_name(s@),
{
    text::same(s, "doc") || text::same(s, "docx") || text::same(s, "rtf") || text::same(s, "odt") || text::same(s, "pages")
}

/// Whether an extension is of kind Excel.
pub open spec fn excel_ext_name(s: Seq<char>) -> bool {
    ||| s == "xls"@
    ||| s == "xlsx"@
    ||| s == "xlsm"@
    ||| s == "numbers"@
}

fn is_excel_ext_name(s: &str) -> (r: bool)
    ensures
        r == excel_ext_name(s@),
{
    text::same(s, "xls") || text::same(s, "xlsx") || text::same(s, "xlsm") || text::same(s, "numbers")
}

/// Whether an extension is of kind Video.
pub open spec fn video_ext_name(s: Seq<char>) -> bool {
    ||| s == "mp4"@
    ||| s == "mov"@
    ||| s == "m4v"@
    ||| s == "webm"@
    ||| s == "mkv"@
    ||| s == "avi"@
    ||| s == "mpg"@
    ||| s == "mpeg"@
}

fn is_video_ext_name(s: &str) -> (r: bool)
    ensures
        r == video_ext_name(s@),
{
    text::same(s, "mp4") || text::same(s, "mov") || text::same(s, "m4v") || text::same(s, "webm") || text::same(s, "mkv") || text::same(s, "avi") || text::same(s, "mpg") || text::same(s, "mpeg")
}

/// Whether an extension is of kind Image.
pub open spec fn image_ext_name(s: Seq<char>) -> bool {
    ||| s == "png"@
    ||| s == "jpg"@
    ||| s == "jpeg"@
    ||| s == "gif"@
    ||| s == "svg"@
    ||| s == "webp"@
    ||| s == "avif"@
    ||| s == "bmp"@
    ||| s == "ico"@
    ||| s == "tif"@
    ||| s == "tiff"@
    ||| s == "heic"@
    ||| s == "heif"@
}

fn is_image_ext_name(s: &str) -> (r: bool)
    ensures
        r == image_ext_name(s@),
{
    text::same(s, "png") || text::same(s, "jpg") || text::same(s, "jpeg") || text::same(s, "gif") || text::same(s, "svg") || text::same(s, "webp") || text::same(s, "avif") || text::same(s, "bmp") || text::same(s, "ico") || text::same(s, "tif") || text::same(s, "tiff") || text::same(s, "heic") || text::same(s, "heif")
}

/// Whether an extension is of kind Html.
pub open spec fn html_ext_name(s: Seq<char>) -> bool {
    ||| s == "html"@
    ||| s == "htm"@
}

fn is_html_ext_name(s: &str) -> (r: bool)
    ensures
        r == html_ext_name(s@),
{
    text::same(s, "html") || text::same(s, "htm")
}

/// Whether an extension is of kind Code.
pub open spec fn code_ext_name(s: Seq<char>) -> bool {
    ||| s == "scss"@
    ||| s == "sass"@
    ||| s == "less"@
    ||| s == "vue"@
    ||| s == "svelte"@
    ||| s == "astro"@
    ||| s == "bat"@
    ||| s == "cmd"@
    ||| s == "csv"@
    ||| s == "tsv"@
    ||| s == "ts"@
    ||| s == "tsx"@
    ||| s == "js"@
    ||| s == "jsx"@
    ||| s == "mjs"@
    ||| s == "cjs"@
    ||| s == "py"@
    ||| s == "rs"@
    ||| s == "go"@
    ||| s == "java"@
    ||| s == "kt"@
    ||| s == "rb"@
    ||| s == "php"@
    ||| s == "c"@
    ||| s == "h"@
    ||| s == "cpp"@
    ||| s == "hpp"@
    ||| s == "cs"@
    ||| s == "swift"@
    ||| s == "scala"@
    ||| s == "sh"@
    ||| s == "sql"@
    ||| s == "json"@
    ||| s == "yaml"@
    ||| s == "yml"@
    ||| s == "toml"@
    ||| s == "xml"@
    ||| s == "proto"@
    ||| s == "graphql"@
    ||| s == "zig"@
    ||| s == "lua"@
    ||| s == "pl"@
    ||| s == "r"@
    ||| s == "dart"@
    ||| s == "erl"@
    ||| s == "ex"@
    ||| s == "hs"@
    ||| s == "clj"@
    ||| s == "wasm"@
    ||| s == "ini"@
    ||| s == "cmake"@
}

fn is_code_ext_name(s: &str) -> (r: bool)
    ensures
        r == code_ext_name(s@),
{
    text::same(s, "scss") || text::same(s, "sass") || text::same(s, "less") || text::same(s, "vue") || text::same(s, "svelte") || text::same(s, "astro") || text::same(s, "bat") || text::same(s, "cmd") || text::same(s, "csv") || text::same(s, "tsv") || text::same(s, "ts") || text::same(s, "tsx") || text::same(s, "js") || text::same(s, "jsx") || text::same(s, "mjs") || text::same(s, "cjs") || text::same(s, "py") || text::same(s, "rs") || text::same(s, "go") || text::same(s, "java") || text::same(s, "kt") || text::same(s, "rb") || text::same(s, "php") || text::same(s, "c") || text::same(s, "h") || text::same(s, "cpp") || text::same(s, "hpp") || text::same(s, "cs") || text::same(s, "swift") || text::same(s, "scala") || text::same(s, "sh") || text::same(s, "sql") || text::same(s, "json") || text::same(s, "yaml") || text::same(s, "yml") || text::same(s, "toml") || text::same(s, "xml") || text::same(s, "proto") || text::same(s, "graphql") || text::same(s, "zig") || text::same(s, "lua") || text::same(s, "pl") || text::same(s, "r") || text::same(s, "dart") || text::same(s, "erl") || text::same(s, "ex") || text::same(s, "hs") || text::same(s, "clj") || text::same(s, "wasm") || text::same(s, "ini") || text::same(s, "cmake")
}

/// The kind for an extension.
pub open spec fn ext_kind(s: Seq<char>) -> FileKind {
    if markdown_ext_name(s) {
        FileKind::Markdown
    } else if pdf_ext_name(s) {
        FileKind::Pdf
    } else if ppt_ext_name(s) {
        FileKind::Ppt
    } else if word_ext_name(s) {
        FileKind::Word
    } else if excel_ext_name(s) {
        FileKind::Excel
    } else if video_ext_name(s) {
        FileKind::Video
    } else if image_ext_name(s) {
        FileKind::Image
    } else if html_ext_name(s) {
        FileKind::Html
    } else if code_ext_name(s) {
        FileKind::Code
    } else {
        FileKind::Other
    }
}

/// Where `c` stands last in `s`.
pub open spec fn last_index(s: Seq<char>, set: Seq<char>) -> Option<int>
    decreases s.len(),
{
    if s.len() == 0 {
        None
    } else if set.contains(s.last()) {
        Some(s.len() - 1)
    } else {
        last_index(s.drop_last(), set)
    }
}

/// Where a member of `set` stands last in `v`.
pub fn find_last(v: &Vec<char>, set: &[char]) -> (r: Option<usize>)
    ensures
        last_index(v@, set@) == (match r {
            Some(i) => Some(i as int),
            None => None,
        }),
        r matches Some(i) ==> i < v@.len() <= usize::MAX,
{
    let mut n: usize = v.len();
    assert(v@.take(n as int) =~= v@);
    while n > 0
        invariant
            n <= v@.len() <= usize::MAX,
            last_index(v@, set@) == last_index(v@.take(n as int), set@),
        decreases n,
    {
        assert(v@.take(n as int).drop_last() =~= v@.take(n - 1));
        if text::holds(set, v[n - 1]) {
            return Some(n - 1);
        }
        n = n - 1;
    }
    None
}

/// What stands behind the last separator of a path.
pub open spec fn base_name(path: Seq<char>) -> Seq<char> {
    match last_index(path, seq!['/', '\\']) {
        Some(i) => path.skip(i + 1),
        None => path,
    }
}

/// What stands behind the last separator of a path.
pub fn base_name_of(path: &str) -> (r: String)
    ensures
        r@ == base_name(path@),
{
    let v: Vec<char> = text::chars_of(path);
    let set: [char; 2] = ['/', '\\'];
    assert(set@ =~= seq!['/', '\\']);
    match find_last(&v, &set) {
        Some(i) => {
            let r: String = text::text_between(v.as_slice(), i + 1, v.len());
            assert(r@ =~= path@.skip(i + 1));
            r
        },
        None => path.to_owned(),
    }
}

/// What stands behind the last dot of a name; nothing where there is no dot.
pub open spec fn dotted_tail(s: Seq<char>) -> Option<Seq<char>> {
    match last_index(s, seq!['.']) {
        Some(i) => Some(s.skip(i + 1)),
        None => None,
    }
}

fn find_dotted_tail(s: &str) -> (r: Option<String>)
    ensures
        r.deep_view() == dotted_tail(s@),
{
    let v: Vec<char> = text::chars_of(s);
    let set: [char; 1] = ['.'];
    assert(set@ =~= seq!['.']);
    match find_last(&v, &set) {
        Some(i) => {
            let r: String = text::text_between(v.as_slice(), i + 1, v.len());
            assert(r@ =~= s@.skip(i + 1));
            Some(r)
        },
        None => None,
    }
}

/// The kind of a file by its bare name in lower case: whole names first, then
/// names that start with a dot, then extensions.
pub open spec fn name_kind(s: Seq<char>) -> FileKind {
    if prose_name(s) {
        FileKind::Markdown
    } else if build_name(s) {
        FileKind::Code
    } else if text::begins(s, "."@) {
        if dot_name(s) {
            FileKind::Code
        } else {
            FileKind::Other
        }
    } else {
        match dotted_tail(s) {
            Some(e) => if e.len() > 0 {
                ext_kind(e)
            } else {
                FileKind::Other
            },
            None => FileKind::Other,
        }
    }
}

/// The kind of a file by its name, without regard to case.
pub fn classify_file_type(name: &str) -> (r: FileKind)
    ensures
        r == name_kind(text::lowered(base_name(name@))),
{
    let base: String = base_name_of(name);
    let lower: String = text::lower_text(base.as_str());
    let s: &str = lower.as_str();
    if is_prose_name(s) {
        return FileKind::Markdown;
    }
    if is_build_name(s) {
        return FileKind::Code;
    }
    if text::starts_with(s, ".") {
        if is_dot_name(s) {
            return FileKind::Code;
        }
        return FileKind::Other;
    }
    match find_dotted_tail(s) {
        Some(e) => {
            if e.as_str().is_empty() {
                FileKind::Other
            } else {
                kind_of_ext(e.as_str())
            }
        },
        None => FileKind::Other,
    }
}

fn kind_of_ext(s: &str) -> (r: FileKind)
    ensures
        r == ext_kind(s@),
{
    if is_markdown_ext_name(s) {
        FileKind::Markdown
    } else if is_pdf_ext_name(s) {
        FileKind::Pdf
    } else if is_ppt_ext_name(s) {
        FileKind::Ppt
    } else if is_word_ext_name(s) {
        FileKind::Word
    } else if is_excel_ext_name(s) {
        FileKind::Excel
    } else if is_video_ext_name(s) {
        FileKind::Video
    } else if is_image_ext_name(s) {
        FileKind::Image
    } else if is_html_ext_name(s) {
        FileKind::Html
    } else if is_code_ext_name(s) {
        FileKind::Code
    } else {
        FileKind::Other
    }
}

// ---------------------------------------------------------------------------
// images and attachments
// ---------------------------------------------------------------------------

/// An extension in lower case.
pub open spec fn low_ext(extension: Option<&str>) -> Option<Seq<char>> {
    match extension {
        Some(e) => Some(text::lowered(e@)),
        None => None,
    }
}

/// Whether a file with this extension is taken in as an image.
pub fn is_image_path(extension: Option<&str>) -> (r: bool)
    ensures
        r == (low_ext(extension) == Some("png"@) || low_ext(extension) == Some("jpg"@) || low_ext(
            extension,
        ) == Some("jpeg"@)),
{
    match extension {
        Some(e) => {
            let low: String = text::lower_text(e);
            let s: &str = low.as_str();
            text::same(s, "png") || text::same(s, "jpg") || text::same(s, "jpeg")
        },
        None => false,
    }
}

/// The media type of an image with this extension.
pub fn image_media_type(extension: Option<&str>) -> (r: &'static str)
    ensures
        r@ == (if low_ext(extension) == Some("jpg"@) || low_ext(extension) == Some("jpeg"@) {
            "image/jpeg"@
        } else {
            "image/png"@
        }),
{
    match extension {
        Some(e) => {
            let low: String = text::lower_text(e);
            let s: &str = low.as_str();
            if text::same(s, "jpg") || text::same(s, "jpeg") {
                "image/jpeg"
            } else {
                "image/png"
            }
        },
        None => "image/png",
    }
}

/// The extension of a name as a card shows it: in upper case, at most eight
/// characters; nothing for a name whose only dot is its first character or
/// whose last character is a dot.
pub open spec fn shown_extension(name: Seq<char>) -> Seq<char> {
    match last_index(name, seq!['.']) {
        Some(i) => if i > 0 && i + 1 < name.len() {
            text::first_chars(text::uppercased(name.skip(i + 1)), 8)
        } else {
            Seq::empty()
        },
        None => Seq::empty(),
    }
}

/// The extension of a name as a card shows it.
pub fn extension_of(name: &str) -> (r: String)
    ensures
        r@ == shown_extension(name@),
{
    let v: Vec<char> = text::chars_of(name);
    let set: [char; 1] = ['.'];
    assert(set@ =~= seq!['.']);
    match find_last(&v, &set) {
        Some(i) => {
            if i > 0 && i + 1 < v.len() {
                let tail: String = text::text_between(v.as_slice(), i + 1, v.len());
                assert(tail@ =~= name@.skip(i + 1));
                text::take_chars(text::upper_case(tail.as_str()).as_str(), 8)
            } else {
                String::new()
            }
        },
        None => String::new(),
    }
}

/// `base` with `name` below it.
pub open spec fn joined_path(base: Seq<char>, name: Seq<char>) -> Seq<char> {
    if base.len() == 0 || base.last() == '/' {
        base + name
    } else {
        base + "/"@ + name
    }
}

fn join_path(base: &str, name: &str) -> (r: String)
    ensures
        r@ == joined_path(base@, name@),
{
    let v: Vec<char> = text::chars_of(base);
    if v.len() == 0 || v[v.len() - 1] == '/' {
        text::concat2(base, name)
    } else {
        text::concat3(base, "/", name)
    }
}

/// Whether a character is a hexadecimal digit.
pub open spec fn is_hex(c: char) -> bool {
    48 <= c as u32 <= 57 || 65 <= c as u32 <= 70 || 97 <= c as u32 <= 102
}

/// Where the bytes of an image with this id are kept below `root`: nowhere for
/// an id that is no hash of at least 64 hexadecimal digits.
pub open spec fn object_path(root: Option<Seq<char>>, id: Seq<char>) -> Option<Seq<char>> {
    match (root, text::behind(id, "sha256:"@)) {
        (Some(root), Some(hex)) => if hex.len() >= 64 && (forall|i: int|
            0 <= i < hex.len() ==> is_hex(#[trigger] hex[i])) {
            Some(joined_path(joined_path(joined_path(root, "objects"@), hex.take(2)), hex))
        } else {
            None
        },
        _ => None,
    }
}

/// Where the bytes of an image with this id are kept below `root`.
pub fn attachment_image_object_path(root: &Option<String>, attachment_id: &str) -> (r: Option<
    String,
>)
    ensures
        r.deep_view() == object_path(root.deep_view(), attachment_id@),
{
    let root: &String = match root {
        Some(root) => root,
        None => {
            return None;
        },
    };
    let hex: String = match text::strip_prefix(attachment_id, "sha256:") {
        Some(hex) => hex,
        None => {
            return None;
        },
    };
    let v: Vec<char> = text::chars_of(hex.as_str());
    if v.len() < 64 {
        return None;
    }
    let mut i: usize = 0;
    while i < v.len()
        invariant
            i <= v@.len(),
            v@ == hex@,
            v@.len() >= 64,
            text::behind(attachment_id@, "sha256:"@) == Some(hex@),
            forall|k: int| 0 <= k < i ==> is_hex(#[trigger] hex@[k]),
        decreases v@.len() - i,
    {
        let n: u32 = v[i] as u32;
        let ok: bool = (48 <= n && n <= 57) || (65 <= n && n <= 70) || (97 <= n && n <= 102);
        if !ok {
            assert(!is_hex(hex@[i as int]));
            return None;
        }
        i = i + 1;
    }
    let pair: String = text::text_between(v.as_slice(), 0, 2);
    assert(pair@ =~= hex@.take(2));
    let dir: String = join_path(root.as_str(), "objects");
    let dir: String = join_path(dir.as_str(), pair.as_str());
    Some(join_path(dir.as_str(), hex.as_str()))
}

/// The last member of a set in a text is where it is found: none stands behind
/// it, and none is found where none stands.
pub proof fn lemma_last_index(s: Seq<char>, set: Seq<char>)
    ensures
        match last_index(s, set) {
            Some(i) => 0 <= i < s.len() && set.contains(s[i]) && forall|j: int|
                i < j < s.len() ==> !set.contains(#[trigger] s[j]),
            None => forall|j: int| 0 <= j < s.len() ==> !set.contains(#[trigger] s[j]),
        },
    decreases s.len(),
{
    if s.len() > 0 && !set.contains(s.last()) {
        let head = s.drop_last();
        lemma_last_index(head, set);
        assert forall|j: int|
            (match last_index(s, set) {
                Some(i) => i,
                None => -1,
            }) < j < s.len() implies !set.contains(#[trigger] s[j]) by {
            if j < head.len() {
                assert(head[j] == s[j]);
            }
        }
    }
}

/// The name of a file is what stands behind the last separator of its path.
pub proof fn name_stands_behind_the_last_separator(folder: Seq<char>, name: Seq<char>)
    requires
        !name.contains('/'),
        !name.contains('\\'),
    ensures
        base_name(name) == name,
        base_name(folder.push('/') + name) == name,
        base_name(folder.push('\\') + name) == name,
{
    let set = seq!['/', '\\'];
    assert(set[0] == '/' && set[1] == '\\');
    assert(set.contains('/') && set.contains('\\'));
    lemma_none_in(name, set);
    lemma_last_behind(folder, '/', name, set);
    lemma_last_behind(folder, '\\', name, set);
    assert((folder.push('/') + name).skip(folder.len() + 1int) =~= name);
    assert((folder.push('\\') + name).skip(folder.len() + 1int) =~= name);
}

proof fn lemma_none_in(name: Seq<char>, set: Seq<char>)
    requires
        forall|i: int| 0 <= i < set.len() ==> !name.contains(#[trigger] set[i]),
    ensures
        last_index(name, set) is None,
{
    lemma_last_index(name, set);
    if let Some(i) = last_index(name, set) {
        let k = choose|k: int| 0 <= k < set.len() && set[k] == name[i];
        assert(name.contains(set[k]));
    }
}

proof fn lemma_last_behind(head: Seq<char>, c: char, name: Seq<char>, set: Seq<char>)
    requires
        set.contains(c),
        forall|i: int| 0 <= i < set.len() ==> !name.contains(#[trigger] set[i]),
    ensures
        last_index(head.push(c) + name, set) == Some(head.len() as int),
{
    let all = head.push(c) + name;
    lemma_last_index(all, set);
    assert(all[head.len() as int] == c);
    if let Some(i) = last_index(all, set) {
        if i > head.len() {
            let k = choose|k: int| 0 <= k < set.len() && set[k] == all[i];
            assert(name[i - head.len() - 1] == set[k]);
            assert(name.contains(set[k]));
        }
    }
}

/// Where the whole name does not decide, what stands behind its last dot does.
pub proof fn extension_decides_the_kind(stem: Seq<char>, ext: Seq<char>)
    requires
        stem.len() > 0,
        stem[0] != '.',
        ext.len() > 0,
        !ext.contains('.'),
        !prose_name(stem.push('.') + ext),
        !build_name(stem.push('.') + ext),
    ensures
        name_kind(stem.push('.') + ext) == ext_kind(ext),
        dotted_tail(stem.push('.') + ext) == Some(ext),
{
    reveal_strlit(".");
    let set = seq!['.'];
    assert(set[0] == '.');
    assert(set.contains('.'));
    let all = stem.push('.') + ext;
    lemma_last_behind(stem, '.', ext, set);
    assert(all.skip(stem.len() + 1int) =~= ext);
    assert(all[0] == stem[0]);
    assert("."@.len() == 1 && "."@[0] == '.');
    assert(all.take(1)[0] == stem[0]);
}

/// A name without a dot is told by the whole of it alone.
pub proof fn name_without_a_dot_has_no_extension(name: Seq<char>)
    requires
        !name.contains('.'),
    ensures
        dotted_tail(name) is None,
        shown_extension(name).len() == 0,
        name_kind(name) == (if prose_name(name) {
            FileKind::Markdown
        } else if build_name(name) {
            FileKind::Code
        } else {
            FileKind::Other
        }),
{
    reveal_strlit(".");
    let set = seq!['.'];
    assert(set[0] == '.');
    lemma_none_in(name, set);
    if text::begins(name, "."@) {
        assert("."@.len() == 1 && "."@[0] == '.');
        assert(name.take(1)[0] == name[0]);
        assert(name.contains(name[0]));
    }
}

/// The extension that is shown is the one behind the last dot, in capitals and
/// at most eight characters of it.
pub proof fn shown_extension_is_the_last(stem: Seq<char>, ext: Seq<char>)
    requires
        stem.len() > 0,
        ext.len() > 0,
        !ext.contains('.'),
    ensures
        ({
            let s = shown_extension(stem.push('.') + ext);
            let up = text::uppercased(ext);
            &&& s.len() <= 8
            &&& text::begins(up, s)
            &&& up.len() <= 8 ==> s == up
        }),
{
    let set = seq!['.'];
    assert(set[0] == '.');
    assert(set.contains('.'));
    let all = stem.push('.') + ext;
    lemma_last_behind(stem, '.', ext, set);
    assert(all.skip(stem.len() + 1int) =~= ext);
    let up = text::uppercased(ext);
    let s = shown_extension(all);
    assert(up.take(s.len() as int) =~= s);
    if up.len() <= 8 {
        assert(s =~= up);
    }
}

/// An attachment lies among the objects, in a folder named after the first two
/// digits of its hash, under the hash; what is no hash has no place.
pub proof fn object_lies_under_its_hash(root: Seq<char>, hex: Seq<char>)
    requires
        root.len() > 0,
        root.last() != '/',
    ensures
        hex.len() >= 64 && (forall|i: int| 0 <= i < hex.len() ==> is_hex(#[trigger] hex[i]))
            ==> object_path(Some(root), "sha256:"@ + hex) == Some(
            root + "/objects/"@ + hex.take(2) + "/"@ + hex,
        ),
        hex.len() < 64 ==> object_path(Some(root), "sha256:"@ + hex) is None,
        object_path(None, "sha256:"@ + hex) is None,
{
    reveal_strlit("/");
    reveal_strlit("objects");
    reveal_strlit("/objects/");
    let id = "sha256:"@ + hex;
    assert(id.take("sha256:"@.len() as int) =~= "sha256:"@);
    assert(id.skip("sha256:"@.len() as int) =~= hex);
    if hex.len() >= 64 && (forall|i: int| 0 <= i < hex.len() ==> is_hex(#[trigger] hex[i])) {
        assert("objects"@.len() == 7 && "objects"@[6] == 's');
        let a = joined_path(root, "objects"@);
        assert(a.last() == 's');
        let b = joined_path(a, hex.take(2));
        assert(b.last() == hex[1]);
        assert(is_hex(hex[1]));
        assert(joined_path(b, hex) =~= root + "/objects/"@ + hex.take(2) + "/"@ + hex);
    }
}

} // verus!
