//! Workspaces: the document that holds them, which sessions belong to them,
//! and where a new session goes.

use crate::json::{Json, JsonPairs, JsonView};
use crate::json;
use crate::text;
use vstd::prelude::*;

verus! {

// ---------------------------------------------------------------------------
// the document
// ---------------------------------------------------------------------------

/// A workspace.
#[derive(Clone, Debug)]
pub struct WorkspaceInfo {
    pub id: String,
    pub title: String,
    pub path: String,
    pub session_ids: Vec<String>,
}

/// The contents of a workspace.
pub struct WorkspaceView {
    pub id: Seq<char>,
    pub title: Seq<char>,
    pub path: Seq<char>,
    pub session_ids: Seq<Seq<char>>,
}

impl DeepView for WorkspaceInfo {
    type V = WorkspaceView;

    open spec fn deep_view(&self) -> WorkspaceView {
        WorkspaceView {
            id: self.id@,
            title: self.title@,
            path: self.path@,
            session_ids: self.session_ids.deep_view(),
        }
    }
}

/// The document of no workspaces.
pub open spec fn empty_document() -> JsonView {
    JsonView::Object(
        seq![
            (
                "unit"@,
                JsonView::Object(
                    seq![
                        ("name"@, JsonView::Text("workspace"@)),
                        ("version"@, JsonView::Unsigned(2)),
                    ],
                ),
            ),
            (
                "global"@,
                JsonView::Object(
                    seq![
                        ("initialized"@, JsonView::Bool(true)),
                        ("workspaceIds"@, JsonView::Array(Seq::empty())),
                        ("archivedSessionIds"@, JsonView::Array(Seq::empty())),
                    ],
                ),
            ),
            (
                "tables"@,
                JsonView::Object(seq![("workspaces"@, JsonView::Object(Seq::empty()))]),
            ),
        ],
    )
}

fn new_document() -> (r: Json)
    ensures
        r.deep_view() == empty_document(),
{
    let none: Vec<Json> = Vec::new();
    let also_none: Vec<Json> = Vec::new();
    let no_rows: Vec<(String, Json)> = Vec::new();
    proof {
        json::lemma_array_view(none);
        json::lemma_array_view(also_none);
        json::lemma_object_view(no_rows);
        assert(json::items_view(none@) =~= Seq::empty());
        assert(json::pairs_view(no_rows@) =~= Seq::empty());
    }
    let mut unit: Vec<(String, Json)> = Vec::new();
    assert(json::pairs_view(unit@) =~= Seq::empty());
    json::add_pair(&mut unit, "name", Json::Text("workspace".to_string()));
    json::add_pair(&mut unit, "version", Json::Unsigned(2));
    let mut global: Vec<(String, Json)> = Vec::new();
    assert(json::pairs_view(global@) =~= Seq::empty());
    json::add_pair(&mut global, "initialized", Json::Bool(true));
    json::add_pair(&mut global, "workspaceIds", Json::Array(none));
    json::add_pair(&mut global, "archivedSessionIds", Json::Array(also_none));
    let mut tables: Vec<(String, Json)> = Vec::new();
    assert(json::pairs_view(tables@) =~= Seq::empty());
    json::add_pair(&mut tables, "workspaces", Json::Object(no_rows));
    proof {
        json::lemma_object_view(unit);
        json::lemma_object_view(global);
        json::lemma_object_view(tables);
    }
    let mut doc: Vec<(String, Json)> = Vec::new();
    assert(json::pairs_view(doc@) =~= Seq::empty());
    json::add_pair(&mut doc, "unit", Json::Object(unit));
    json::add_pair(&mut doc, "global", Json::Object(global));
    json::add_pair(&mut doc, "tables", Json::Object(tables));
    proof {
        json::lemma_object_view(doc);
        let pairs = empty_document()->Object_0;
        assert(json::pairs_view(unit@) =~= pairs[0].1->Object_0);
        assert(json::pairs_view(global@) =~= pairs[1].1->Object_0);
        assert(json::pairs_view(tables@) =~= pairs[2].1->Object_0);
        assert(json::pairs_view(doc@) =~= pairs);
    }
    Json::Object(doc)
}

/// What a document is read as, or the document of no workspaces where it does
/// not read.
pub open spec fn document_of(raw: Option<Seq<char>>) -> JsonView {
    match raw {
        Some(s) => match json::parsed_json(s) {
            Some(v) => v,
            None => empty_document(),
        },
        None => empty_document(),
    }
}

/// What a document is read as, where it reads.
pub open spec fn read_document(raw: Option<Seq<char>>) -> Option<JsonView> {
    match raw {
        Some(s) => json::parsed_json(s),
        None => None,
    }
}

fn parse_document(raw: &Option<String>) -> (r: Option<Json>)
    ensures
        r.deep_view() == read_document(raw.deep_view()),
{
    match raw {
        Some(s) => json::parse_json(s.as_str()),
        None => None,
    }
}

fn open_document(raw: &Option<String>) -> (r: Json)
    ensures
        r.deep_view() == document_of(raw.deep_view()),
{
    match parse_document(raw) {
        Some(v) => v,
        None => new_document(),
    }
}

// ---------------------------------------------------------------------------
// archived sessions
// ---------------------------------------------------------------------------

/// The archived sessions of a document.
pub open spec fn archived_of(doc: Option<JsonView>) -> Seq<Seq<char>> {
    json::text_list(json::member_of(json::member_of(doc, "global"@), "archivedSessionIds"@))
}

/// The archived sessions of a document that was read.
pub fn archived_ids(doc: &Option<Json>) -> (r: Vec<String>)
    ensures
        r.deep_view() == archived_of(doc.deep_view()),
{
    let global = match doc {
        Some(d) => d.get("global"),
        None => None,
    };
    let list = match global {
        Some(g) => g.get("archivedSessionIds"),
        None => None,
    };
    json::read_text_list(list)
}

/// The archived sessions of the document as it stands on disk.
pub fn load_archived_ids(raw: &Option<String>) -> (r: Vec<String>)
    ensures
        r.deep_view() == archived_of(read_document(raw.deep_view())),
{
    let doc = parse_document(raw);
    archived_ids(&doc)
}

/// Whether a text is among the items.
pub open spec fn lists_text(items: Seq<JsonView>, s: Seq<char>) -> bool {
    exists|i: int| 0 <= i < items.len() && #[trigger] items[i] == JsonView::Text(s)
}

/// The list of archived sessions with one more, which is not listed twice. A
/// missing list is begun; what is no list is left as it is.
pub open spec fn archive_list(list: Option<JsonView>, id: Seq<char>) -> JsonView {
    match list {
        None => JsonView::Array(seq![JsonView::Text(id)]),
        Some(JsonView::Array(items)) => if lists_text(items, id) {
            JsonView::Array(items)
        } else {
            JsonView::Array(items.push(JsonView::Text(id)))
        },
        Some(v) => v,
    }
}

/// A document with another value under `key` of its member `part`, where that
/// member is an object; any other document is left as it is.
pub open spec fn with_inner(doc: JsonView, part: Seq<char>, key: Seq<char>, v: JsonView) -> JsonView {
    match doc {
        JsonView::Object(pairs) => match json::pair_value(pairs, part) {
            Some(JsonView::Object(inner)) => JsonView::Object(
                json::with_pair(pairs, part, JsonView::Object(json::with_pair(inner, key, v))),
            ),
            _ => doc,
        },
        _ => doc,
    }
}

/// A document with one more archived session.
pub open spec fn with_archived(doc: JsonView, id: Seq<char>) -> JsonView {
    with_inner(
        doc,
        "global"@,
        "archivedSessionIds"@,
        archive_list(
            json::member_of(json::member_of(Some(doc), "global"@), "archivedSessionIds"@),
            id,
        ),
    )
}

fn set_inner(doc: &mut Json, part: &str, key: &str, v: Json)
    ensures
        final(doc).deep_view() == with_inner(old(doc).deep_view(), part@, key@, v.deep_view()),
{
    let inner = match doc.get(part) {
        Some(p) => match p {
            Json::Object(pairs) => {
                proof {
                    json::lemma_object_view(*pairs);
                }
                Some(p.copy())
            },
            Json::Array(items) => {
                proof {
                    json::lemma_array_view(*items);
                }
                None
            },
            _ => None,
        },
        None => None,
    };
    match inner {
        Some(mut x) => {
            x.set(key, v);
            doc.set(part, x);
        },
        None => {},
    }
}

fn lists(items: &Vec<Json>, s: &str) -> (r: bool)
    ensures
        r == lists_text(json::items_view(items@), s@),
{
    let ghost view = json::items_view(items@);
    let mut i: usize = 0;
    while i < items.len()
        invariant
            i <= items@.len(),
            view == json::items_view(items@),
            forall|j: int| 0 <= j < i ==> #[trigger] view[j] != JsonView::Text(s@),
        decreases items@.len() - i,
    {
        assert(view[i as int] == items@[i as int].deep_view());
        if let Some(t) = items[i].as_text() {
            if text::same(t.as_str(), s) {
                assert(view[i as int] == JsonView::Text(s@));
                return true;
            }
        }
        i += 1;
    }
    false
}

fn longer_archive(list: Option<&Json>, id: &str) -> (r: Json)
    ensures
        r.deep_view() == archive_list(
            (match list {
                Some(v) => Some(v.deep_view()),
                None => None,
            }),
            id@,
        ),
{
    match list {
        None => {
            let mut items: Vec<Json> = Vec::new();
            items.push(Json::Text(id.to_string()));
            proof {
                json::lemma_array_view(items);
                assert(json::items_view(items@) =~= seq![JsonView::Text(id@)]);
            }
            Json::Array(items)
        },
        Some(v) => {
            let mut c = v.copy();
            match &mut c {
                Json::Array(items) => {
                    proof {
                        json::lemma_array_view(*items);
                    }
                    if !lists(items, id) {
                        let ghost before = json::items_view(items@);
                        items.push(Json::Text(id.to_string()));
                        proof {
                            json::lemma_array_view(*items);
                            assert(json::items_view(items@) =~= before.push(
                                JsonView::Text(id@),
                            ));
                        }
                    }
                },
                _ => {},
            }
            c
        },
    }
}

/// A document with one more archived session.
pub fn add_archived(doc: Json, id: &str) -> (r: Json)
    ensures
        r.deep_view() == with_archived(doc.deep_view(), id@),
{
    let mut d = doc;
    let list = match d.get("global") {
        Some(g) => longer_archive(g.get("archivedSessionIds"), id),
        None => longer_archive(None, id),
    };
    set_inner(&mut d, "global", "archivedSessionIds", list);
    d
}

/// The document to write so that a session is archived.
pub fn archive_session_doc(raw: &Option<String>, id: &str) -> (r: Option<String>)
    ensures
        r.deep_view() == json::pretty_json(with_archived(document_of(raw.deep_view()), id@)),
        json::reads_back(r.deep_view(), with_archived(document_of(raw.deep_view()), id@)),
{
    let doc = open_document(raw);
    let next = add_archived(doc, id);
    json::render_json(&next)
}

// ---------------------------------------------------------------------------
// workspaces of a document
// ---------------------------------------------------------------------------

/// The rows of the workspaces in a document, by id.
pub open spec fn rows_of(doc: Option<JsonView>) -> Option<JsonView> {
    json::member_of(json::member_of(doc, "tables"@), "workspaces"@)
}

/// A workspace from its row.
pub open spec fn workspace_from(id: Seq<char>, row: JsonView) -> WorkspaceView {
    WorkspaceView {
        id,
        title: json::text_or_empty(row.member("title"@)),
        path: json::text_or_empty(row.member("path"@)),
        session_ids: json::text_list(row.member("sessionIds"@)),
    }
}

/// The workspaces with the given ids that have a row.
pub open spec fn workspaces_from(ids: Seq<Seq<char>>, rows: Option<JsonView>) -> Seq<WorkspaceView>
    decreases ids.len(),
{
    if ids.len() == 0 {
        Seq::empty()
    } else {
        let head = workspaces_from(ids.drop_last(), rows);
        match json::member_of(rows, ids.last()) {
            Some(row) => head.push(workspace_from(ids.last(), row)),
            None => head,
        }
    }
}

/// The workspaces of a document, in its order.
pub open spec fn workspaces_of(doc: Option<JsonView>) -> Seq<WorkspaceView> {
    workspaces_from(
        json::text_list(json::member_of(json::member_of(doc, "global"@), "workspaceIds"@)),
        rows_of(doc),
    )
}

fn read_workspace(id: &String, row: &Json) -> (r: WorkspaceInfo)
    ensures
        r.deep_view() == workspace_from(id@, row.deep_view()),
{
    WorkspaceInfo {
        id: id.clone(),
        title: json::text_or_default(row.get("title")),
        path: json::text_or_default(row.get("path")),
        session_ids: json::read_text_list(row.get("sessionIds")),
    }
}

/// The workspaces of a document that was read.
pub fn workspaces_in(doc: &Option<Json>) -> (r: Vec<WorkspaceInfo>)
    ensures
        r.deep_view() == workspaces_of(doc.deep_view()),
{
    let (global, tables) = match doc {
        Some(d) => (d.get("global"), d.get("tables")),
        None => (None, None),
    };
    let order = match global {
        Some(g) => json::read_text_list(g.get("workspaceIds")),
        None => json::read_text_list(None),
    };
    let rows = match tables {
        Some(t) => t.get("workspaces"),
        None => None,
    };
    let ghost table = rows_of(doc.deep_view());
    let ghost ids = order.deep_view();
    let mut out: Vec<WorkspaceInfo> = Vec::new();
    let mut i: usize = 0;
    assert(out.deep_view() =~= workspaces_from(ids.take(0), table));
    while i < order.len()
        invariant
            i <= order@.len(),
            ids == order.deep_view(),
            table == (match rows {
                Some(v) => Some(v.deep_view()),
                None => None,
            }),
            out.deep_view() == workspaces_from(ids.take(i as int), table),
        decreases order@.len() - i,
    {
        assert(ids.take(i + 1).drop_last() =~= ids.take(i as int));
        assert(ids.take(i + 1).last() == order@[i as int]@);
        let row = match rows {
            Some(w) => w.get(order[i].as_str()),
            None => None,
        };
        if let Some(row) = row {
            let ghost before = out.deep_view();
            let w = read_workspace(&order[i], row);
            out.push(w);
            assert(out.deep_view() =~= before.push(w.deep_view()));
        }
        i += 1;
    }
    assert(ids.take(i as int) =~= ids);
    out
}

/// The workspaces of the document as it stands on disk.
pub fn load_workspaces(raw: &Option<String>) -> (r: Vec<WorkspaceInfo>)
    ensures
        r.deep_view() == workspaces_of(read_document(raw.deep_view())),
{
    let doc = parse_document(raw);
    workspaces_in(&doc)
}

/// Whether a member of a row is written anew.
pub open spec fn own_member(key: Seq<char>) -> bool {
    key == "path"@ || key == "title"@ || key == "sessionIds"@
}

/// The members of a row that are kept as they are.
pub open spec fn foreign_members(pairs: JsonPairs) -> JsonPairs
    decreases pairs.len(),
{
    if pairs.len() == 0 {
        Seq::empty()
    } else if own_member(pairs.last().0) {
        foreign_members(pairs.drop_last())
    } else {
        json::with_pair(
            foreign_members(pairs.drop_last()),
            pairs.last().0,
            pairs.last().1,
        )
    }
}

/// The row of a workspace: what others wrote there is kept, the time of its
/// making is put in where it is missing, and the time of its change is `now`.
pub open spec fn row_of(prev: Option<JsonView>, w: WorkspaceView, now: Seq<char>) -> JsonView {
    let kept = match prev {
        Some(JsonView::Object(pairs)) => foreign_members(pairs),
        _ => Seq::empty(),
    };
    let made = match json::pair_value(kept, "createdAt"@) {
        Some(_) => kept,
        None => json::with_pair(kept, "createdAt"@, JsonView::Text(now)),
    };
    let changed = json::with_pair(made, "updatedAt"@, JsonView::Text(now));
    let placed = json::with_pair(changed, "path"@, JsonView::Text(w.path));
    let titled = json::with_pair(placed, "title"@, JsonView::Text(w.title));
    JsonView::Object(json::with_pair(titled, "sessionIds"@, json::text_array(w.session_ids)))
}

/// The rows of the workspaces.
pub open spec fn table_of(prev: Option<JsonView>, ws: Seq<WorkspaceView>, now: Seq<char>) -> JsonPairs
    decreases ws.len(),
{
    if ws.len() == 0 {
        Seq::empty()
    } else {
        let w = ws.last();
        json::with_pair(
            table_of(prev, ws.drop_last(), now),
            w.id,
            row_of(json::member_of(prev, w.id), w, now),
        )
    }
}

/// The ids of workspaces.
pub open spec fn ids_of(ws: Seq<WorkspaceView>) -> Seq<Seq<char>> {
    ws.map_values(|w: WorkspaceView| w.id)
}

/// A document with the given workspaces; everything else in it is kept.
pub open spec fn with_workspaces(doc: JsonView, ws: Seq<WorkspaceView>, now: Seq<char>) -> JsonView {
    let ordered = with_inner(doc, "global"@, "workspaceIds"@, json::text_array(ids_of(ws)));
    with_inner(
        ordered,
        "tables"@,
        "workspaces"@,
        JsonView::Object(table_of(rows_of(Some(ordered)), ws, now)),
    )
}

fn keep_foreign(pairs: &Vec<(String, Json)>) -> (r: Json)
    ensures
        r.deep_view() == JsonView::Object(foreign_members(json::pairs_view(pairs@))),
{
    let ghost view = json::pairs_view(pairs@);
    let none: Vec<(String, Json)> = Vec::new();
    proof {
        json::lemma_object_view(none);
        assert(json::pairs_view(none@) =~= foreign_members(view.take(0)));
    }
    let mut row = Json::Object(none);
    let mut i: usize = 0;
    while i < pairs.len()
        invariant
            i <= pairs@.len(),
            view == json::pairs_view(pairs@),
            row.deep_view() == JsonView::Object(foreign_members(view.take(i as int))),
        decreases pairs@.len() - i,
    {
        assert(view.take(i + 1).drop_last() =~= view.take(i as int));
        assert(view.take(i + 1).last() == (pairs@[i as int].0@, pairs@[i as int].1.deep_view()));
        let key: &str = pairs[i].0.as_str();
        if !(text::same(key, "path") || text::same(key, "title") || text::same(key, "sessionIds")) {
            row.set(key, pairs[i].1.copy());
        }
        i += 1;
    }
    assert(view.take(i as int) =~= view);
    row
}

fn make_row(prev: Option<&Json>, w: &WorkspaceInfo, now: &str) -> (r: Json)
    ensures
        r.deep_view() == row_of(
            (match prev {
                Some(v) => Some(v.deep_view()),
                None => None,
            }),
            w.deep_view(),
            now@,
        ),
{
    let none: Vec<(String, Json)> = Vec::new();
    proof {
        json::lemma_object_view(none);
        assert(json::pairs_view(none@) =~= Seq::empty());
    }
    let mut row = match prev {
        Some(v) => match v {
            Json::Object(pairs) => {
                proof {
                    json::lemma_object_view(*pairs);
                }
                keep_foreign(pairs)
            },
            Json::Array(items) => {
                proof {
                    json::lemma_array_view(*items);
                }
                Json::Object(none)
            },
            _ => Json::Object(none),
        },
        None => Json::Object(none),
    };
    if row.get("createdAt").is_none() {
        row.set("createdAt", Json::Text(now.to_string()));
    }
    row.set("updatedAt", Json::Text(now.to_string()));
    row.set("path", Json::Text(w.path.clone()));
    row.set("title", Json::Text(w.title.clone()));
    row.set("sessionIds", json::array_of_texts(&w.session_ids));
    row
}

fn make_table(prev: Option<&Json>, workspaces: &Vec<WorkspaceInfo>, now: &str) -> (r: Json)
    ensures
        r.deep_view() == JsonView::Object(
            table_of(
                (match prev {
                    Some(v) => Some(v.deep_view()),
                    None => None,
                }),
                workspaces.deep_view(),
                now@,
            ),
        ),
{
    let ghost view = workspaces.deep_view();
    let ghost before = match prev {
        Some(v) => Some(v.deep_view()),
        None => None,
    };
    let none: Vec<(String, Json)> = Vec::new();
    proof {
        json::lemma_object_view(none);
        assert(json::pairs_view(none@) =~= table_of(before, view.take(0), now@));
    }
    let mut table = Json::Object(none);
    let mut i: usize = 0;
    while i < workspaces.len()
        invariant
            i <= workspaces@.len(),
            view == workspaces.deep_view(),
            before == (match prev {
                Some(v) => Some(v.deep_view()),
                None => None,
            }),
            table.deep_view() == JsonView::Object(table_of(before, view.take(i as int), now@)),
        decreases workspaces@.len() - i,
    {
        assert(view.take(i + 1).drop_last() =~= view.take(i as int));
        assert(view.take(i + 1).last() == workspaces@[i as int].deep_view());
        let w: &WorkspaceInfo = &workspaces[i];
        let old_row = match prev {
            Some(t) => t.get(w.id.as_str()),
            None => None,
        };
        let row = make_row(old_row, w, now);
        table.set(w.id.as_str(), row);
        i += 1;
    }
    assert(view.take(i as int) =~= view);
    table
}

fn list_ids(workspaces: &Vec<WorkspaceInfo>) -> (r: Vec<String>)
    ensures
        r.deep_view() == ids_of(workspaces.deep_view()),
{
    let ghost all = ids_of(workspaces.deep_view());
    let mut out: Vec<String> = Vec::new();
    let mut i: usize = 0;
    assert(out.deep_view() =~= all.take(0));
    while i < workspaces.len()
        invariant
            i <= workspaces@.len(),
            all == ids_of(workspaces.deep_view()),
            out.deep_view() == all.take(i as int),
        decreases workspaces@.len() - i,
    {
        let ghost before = out.deep_view();
        out.push(workspaces[i].id.clone());
        assert(out.deep_view() =~= before.push(workspaces@[i as int].id@));
        assert(all[i as int] == workspaces.deep_view()[i as int].id);
        assert(workspaces.deep_view()[i as int] == workspaces@[i as int].deep_view());
        assert(all.take(i + 1) =~= all.take(i as int).push(all[i as int]));
        i += 1;
    }
    assert(all.take(i as int) =~= all);
    out
}

/// A document with the given workspaces.
pub fn put_workspaces(doc: Json, workspaces: &Vec<WorkspaceInfo>, now: &str) -> (r: Json)
    ensures
        r.deep_view() == with_workspaces(doc.deep_view(), workspaces.deep_view(), now@),
{
    let mut d = doc;
    let ids = list_ids(workspaces);
    set_inner(&mut d, "global", "workspaceIds", json::array_of_texts(&ids));
    let table = {
        let rows = match d.get("tables") {
            Some(t) => t.get("workspaces"),
            None => None,
        };
        make_table(rows, workspaces, now)
    };
    set_inner(&mut d, "tables", "workspaces", table);
    d
}

/// Whether a document has the parts that workspaces are kept in.
pub open spec fn keeps_workspaces(doc: JsonView) -> bool {
    doc.member("global"@) matches Some(JsonView::Object(_)) && doc.member("tables"@) matches Some(
        JsonView::Object(_),
    )
}

/// Whether no id occurs twice.
pub open spec fn ids_distinct(ws: Seq<WorkspaceView>) -> bool {
    forall|i: int, j: int| 0 <= i < j < ws.len() ==> ws[i].id != ws[j].id
}

/// The document to write so that it holds the given workspaces. Where it keeps
/// workspaces and is plain, they are read back from it.
pub fn save_workspaces(raw: &Option<String>, workspaces: &Vec<WorkspaceInfo>, now: &str) -> (r: Option<
    String,
>)
    ensures
        ({
            let doc = with_workspaces(document_of(raw.deep_view()), workspaces.deep_view(), now@);
            &&& r.deep_view() == json::pretty_json(doc)
            &&& r is Some
            &&& json::plain_json(doc, 100) && keeps_workspaces(document_of(raw.deep_view()))
                && ids_distinct(workspaces.deep_view()) ==> workspaces_of(
                read_document(r.deep_view()),
            ) == workspaces.deep_view()
        }),
{
    let doc = open_document(raw);
    let ghost before = doc.deep_view();
    let next = put_workspaces(doc, workspaces, now);
    let r = json::render_json(&next);
    proof {
        let after = next.deep_view();
        if json::plain_json(after, 100) && keeps_workspaces(before) && ids_distinct(
            workspaces.deep_view(),
        ) {
            saved_workspaces_are_read_back(before, workspaces.deep_view(), now@);
            let again = json::parsed_json(r->0@);
            assert(json::same_where(again, Some(after), 100));
            lemma_same_workspaces(again, Some(after), 100);
        }
    }
    r
}

// ---------------------------------------------------------------------------
// laws of the document
// ---------------------------------------------------------------------------

proof fn lemma_same_rows(
    ids: Seq<Seq<char>>,
    a: Option<JsonView>,
    b: Option<JsonView>,
    depth: nat,
)
    requires
        json::same_where(a, b, depth),
        depth >= 3,
    ensures
        workspaces_from(ids, a) == workspaces_from(ids, b),
    decreases ids.len(),
{
    if ids.len() > 0 {
        lemma_same_rows(ids.drop_last(), a, b, depth);
        json::lemma_same_member(a, b, ids.last(), depth);
        let x = json::member_of(a, ids.last());
        let y = json::member_of(b, ids.last());
        let d = (depth - 1) as nat;
        json::lemma_same_member(x, y, "title"@, d);
        json::lemma_same_member(x, y, "path"@, d);
        json::lemma_same_member(x, y, "sessionIds"@, d);
        let e = (depth - 2) as nat;
        json::lemma_same_text(
            json::member_of(x, "title"@),
            json::member_of(y, "title"@),
            e,
        );
        json::lemma_same_text(json::member_of(x, "path"@), json::member_of(y, "path"@), e);
        json::lemma_same_list(
            json::member_of(x, "sessionIds"@),
            json::member_of(y, "sessionIds"@),
            e,
        );
    }
}

proof fn lemma_same_workspaces(a: Option<JsonView>, b: Option<JsonView>, depth: nat)
    requires
        json::same_where(a, b, depth),
        depth >= 6,
    ensures
        workspaces_of(a) == workspaces_of(b),
{
    let d = (depth - 1) as nat;
    let e = (depth - 2) as nat;
    json::lemma_same_member(a, b, "global"@, depth);
    json::lemma_same_member(a, b, "tables"@, depth);
    let (ga, gb) = (json::member_of(a, "global"@), json::member_of(b, "global"@));
    let (ta, tb) = (json::member_of(a, "tables"@), json::member_of(b, "tables"@));
    json::lemma_same_member(ga, gb, "workspaceIds"@, d);
    json::lemma_same_member(ta, tb, "workspaces"@, d);
    json::lemma_same_list(
        json::member_of(ga, "workspaceIds"@),
        json::member_of(gb, "workspaceIds"@),
        e,
    );
    lemma_same_rows(
        json::text_list(json::member_of(ga, "workspaceIds"@)),
        rows_of(a),
        rows_of(b),
        e,
    );
}

proof fn lemma_row_reads(prev: Option<JsonView>, w: WorkspaceView, now: Seq<char>)
    ensures
        workspace_from(w.id, row_of(prev, w, now)) == w,
{
    let kept = match prev {
        Some(JsonView::Object(pairs)) => foreign_members(pairs),
        _ => Seq::empty(),
    };
    let made = match json::pair_value(kept, "createdAt"@) {
        Some(_) => kept,
        None => json::with_pair(kept, "createdAt"@, JsonView::Text(now)),
    };
    let changed = json::with_pair(made, "updatedAt"@, JsonView::Text(now));
    let placed = json::with_pair(changed, "path"@, JsonView::Text(w.path));
    let titled = json::with_pair(placed, "title"@, JsonView::Text(w.title));
    let sessions = json::text_array(w.session_ids);
    reveal_strlit("path");
    reveal_strlit("title");
    reveal_strlit("sessionIds");
    assert("path"@.len() == 4 && "title"@.len() == 5 && "sessionIds"@.len() == 10);
    json::lemma_with_pair(titled, "sessionIds"@, sessions, "sessionIds"@);
    json::lemma_with_pair(titled, "sessionIds"@, sessions, "title"@);
    json::lemma_with_pair(titled, "sessionIds"@, sessions, "path"@);
    json::lemma_with_pair(placed, "title"@, JsonView::Text(w.title), "title"@);
    json::lemma_with_pair(placed, "title"@, JsonView::Text(w.title), "path"@);
    json::lemma_with_pair(changed, "path"@, JsonView::Text(w.path), "path"@);
    json::lemma_texts_of_array(w.session_ids);
}

proof fn lemma_table_row(prev: Option<JsonView>, ws: Seq<WorkspaceView>, now: Seq<char>, i: int)
    requires
        ids_distinct(ws),
        0 <= i < ws.len(),
    ensures
        json::pair_value(table_of(prev, ws, now), ws[i].id) == Some(
            row_of(json::member_of(prev, ws[i].id), ws[i], now),
        ),
    decreases ws.len(),
{
    let head = ws.drop_last();
    let w = ws.last();
    json::lemma_with_pair(
        table_of(prev, head, now),
        w.id,
        row_of(json::member_of(prev, w.id), w, now),
        ws[i].id,
    );
    if i < head.len() {
        assert forall|a: int, b: int| 0 <= a < b < head.len() implies head[a].id != head[b].id by {
            assert(ws[a].id != ws[b].id);
        }
        assert(ws[i].id != ws[ws.len() - 1].id);
        lemma_table_row(prev, head, now, i);
        assert(head[i] == ws[i]);
    }
}

proof fn lemma_rows_read(table: JsonPairs, prev: Option<JsonView>, ws: Seq<WorkspaceView>, now: Seq<char>)
    requires
        forall|i: int|
            0 <= i < ws.len() ==> json::pair_value(table, (#[trigger] ws[i]).id) == Some(
                row_of(json::member_of(prev, ws[i].id), ws[i], now),
            ),
    ensures
        workspaces_from(ids_of(ws), Some(JsonView::Object(table))) == ws,
    decreases ws.len(),
{
    let ids = ids_of(ws);
    if ws.len() > 0 {
        let head = ws.drop_last();
        assert forall|i: int| 0 <= i < head.len() implies json::pair_value(
            table,
            (#[trigger] head[i]).id,
        ) == Some(row_of(json::member_of(prev, head[i].id), head[i], now)) by {
            assert(head[i] == ws[i]);
        }
        lemma_rows_read(table, prev, head, now);
        assert(ids.drop_last() =~= ids_of(head));
        let w = ws[ws.len() - 1];
        assert(ids.last() == w.id);
        lemma_row_reads(json::member_of(prev, w.id), w, now);
        assert(head.push(w) =~= ws);
    } else {
        assert(workspaces_from(ids, Some(JsonView::Object(table))) =~= ws);
    }
}

proof fn lemma_with_inner(
    doc: JsonView,
    part: Seq<char>,
    key: Seq<char>,
    v: JsonView,
    other: Seq<char>,
)
    requires
        doc.member(part) matches Some(JsonView::Object(_)),
    ensures
        json::member_of(with_inner(doc, part, key, v).member(part), key) == Some(v),
        with_inner(doc, part, key, v).member(part) matches Some(JsonView::Object(_)),
        other != part ==> with_inner(doc, part, key, v).member(other) == doc.member(other),
{
    let pairs = doc->Object_0;
    let inner = json::pair_value(pairs, part)->0->Object_0;
    let next = JsonView::Object(json::with_pair(inner, key, v));
    json::lemma_with_pair(pairs, part, next, part);
    json::lemma_with_pair(pairs, part, next, other);
    json::lemma_with_pair(inner, key, v, key);
}

/// The workspaces that were put into a document are read from it.
pub proof fn saved_workspaces_are_read_back(
    doc: JsonView,
    ws: Seq<WorkspaceView>,
    now: Seq<char>,
)
    requires
        keeps_workspaces(doc),
        ids_distinct(ws),
    ensures
        workspaces_of(Some(with_workspaces(doc, ws, now))) == ws,
{
    reveal_strlit("global");
    reveal_strlit("tables");
    assert("global"@[0] != "tables"@[0]);
    let list = json::text_array(ids_of(ws));
    let ordered = with_inner(doc, "global"@, "workspaceIds"@, list);
    lemma_with_inner(doc, "global"@, "workspaceIds"@, list, "tables"@);
    let prev = rows_of(Some(ordered));
    let table = table_of(prev, ws, now);
    lemma_with_inner(
        ordered,
        "tables"@,
        "workspaces"@,
        JsonView::Object(table),
        "global"@,
    );
    json::lemma_texts_of_array(ids_of(ws));
    assert forall|i: int| 0 <= i < ws.len() implies json::pair_value(
        table,
        (#[trigger] ws[i]).id,
    ) == Some(row_of(json::member_of(prev, ws[i].id), ws[i], now)) by {
        lemma_table_row(prev, ws, now, i);
    }
    lemma_rows_read(table, prev, ws, now);
}

/// Saving workspaces leaves the archived sessions as they were.
pub proof fn saving_keeps_the_archive(doc: JsonView, ws: Seq<WorkspaceView>, now: Seq<char>)
    requires
        keeps_workspaces(doc),
    ensures
        archived_of(Some(with_workspaces(doc, ws, now))) == archived_of(Some(doc)),
{
    reveal_strlit("global");
    reveal_strlit("tables");
    assert("global"@[0] != "tables"@[0]);
    reveal_strlit("workspaceIds");
    reveal_strlit("archivedSessionIds");
    assert("workspaceIds"@[0] != "archivedSessionIds"@[0]);
    let list = json::text_array(ids_of(ws));
    let ordered = with_inner(doc, "global"@, "workspaceIds"@, list);
    lemma_with_inner(doc, "global"@, "workspaceIds"@, list, "tables"@);
    let table = JsonView::Object(table_of(rows_of(Some(ordered)), ws, now));
    lemma_with_inner(ordered, "tables"@, "workspaces"@, table, "global"@);
    let pairs = doc->Object_0;
    let inner = json::pair_value(pairs, "global"@)->0->Object_0;
    json::lemma_with_pair(
        pairs,
        "global"@,
        JsonView::Object(json::with_pair(inner, "workspaceIds"@, list)),
        "global"@,
    );
    json::lemma_with_pair(inner, "workspaceIds"@, list, "archivedSessionIds"@);
}

/// Archiving a session leaves the workspaces as they were.
pub proof fn archiving_keeps_the_workspaces(doc: JsonView, id: Seq<char>)
    requires
        keeps_workspaces(doc),
    ensures
        workspaces_of(Some(with_archived(doc, id))) == workspaces_of(Some(doc)),
{
    reveal_strlit("global");
    reveal_strlit("tables");
    assert("global"@[0] != "tables"@[0]);
    reveal_strlit("workspaceIds");
    reveal_strlit("archivedSessionIds");
    assert("workspaceIds"@[0] != "archivedSessionIds"@[0]);
    let pairs = doc->Object_0;
    let inner = json::pair_value(pairs, "global"@)->0->Object_0;
    let list = archive_list(json::pair_value(inner, "archivedSessionIds"@), id);
    lemma_with_inner(doc, "global"@, "archivedSessionIds"@, list, "tables"@);
    json::lemma_with_pair(
        pairs,
        "global"@,
        JsonView::Object(json::with_pair(inner, "archivedSessionIds"@, list)),
        "global"@,
    );
    json::lemma_with_pair(inner, "archivedSessionIds"@, list, "workspaceIds"@);
}

/// A session that was archived is listed as archived, and archiving it again
/// changes nothing in the list.
pub proof fn archived_session_is_listed(doc: JsonView, id: Seq<char>)
    requires
        doc.member("global"@) matches Some(JsonView::Object(_)),
        json::member_of(doc.member("global"@), "archivedSessionIds"@) matches Some(v)
            ==> v is Array,
    ensures
        archived_of(Some(with_archived(doc, id))).contains(id),
        archived_of(Some(with_archived(with_archived(doc, id), id))) == archived_of(
            Some(with_archived(doc, id)),
        ),
{
    let before = json::member_of(doc.member("global"@), "archivedSessionIds"@);
    let list = archive_list(before, id);
    lemma_with_inner(doc, "global"@, "archivedSessionIds"@, list, "tables"@);
    let next = with_archived(doc, id);
    let items = list->Array_0;
    if let Some(JsonView::Array(old_items)) = before {
        if !lists_text(old_items, id) {
            assert(items[old_items.len() as int] == JsonView::Text(id));
        }
    } else {
        assert(items[0] == JsonView::Text(id));
    }
    assert(lists_text(items, id));
    lemma_listed(items, id);
    lemma_with_inner(next, "global"@, "archivedSessionIds"@, archive_list(Some(list), id), "tables"@);
}

proof fn lemma_listed(items: Seq<JsonView>, id: Seq<char>)
    requires
        lists_text(items, id),
    ensures
        json::texts_of(items).contains(id),
    decreases items.len(),
{
    let texts = json::texts_of(items);
    if items.last() == JsonView::Text(id) {
        assert(texts[texts.len() - 1] == id);
    } else {
        let head = items.drop_last();
        let i = choose|i: int| 0 <= i < items.len() && #[trigger] items[i] == JsonView::Text(id);
        assert(head[i] == JsonView::Text(id));
        lemma_listed(head, id);
        let k = choose|k: int| 0 <= k < json::texts_of(head).len() && json::texts_of(head)[k] == id;
        assert(texts[k] == id);
    }
}

/// The row of a workspace holds its folder, its title and its sessions under
/// their keys, keeps what others wrote into it, and is dated: made once, and
/// changed now.
pub proof fn row_says_the_workspace(
    prev: Option<JsonView>,
    w: WorkspaceView,
    now: Seq<char>,
    other: Seq<char>,
)
    ensures
        ({
            let row = row_of(prev, w, now);
            &&& row.member("path"@) == Some(JsonView::Text(w.path))
            &&& row.member("title"@) == Some(JsonView::Text(w.title))
            &&& row.member("sessionIds"@) == Some(json::text_array(w.session_ids))
            &&& row.member("updatedAt"@) == Some(JsonView::Text(now))
            &&& row.member("createdAt"@) is Some
            &&& prev is None ==> row.member("createdAt"@) == Some(JsonView::Text(now))
            &&& prev matches Some(JsonView::Object(pairs)) ==> (json::keys_distinct(pairs) && other
                != "path"@ && other != "title"@ && other != "sessionIds"@ && other != "updatedAt"@
                && (other != "createdAt"@ || json::pair_value(pairs, other) is Some)
                ==> row.member(other) == json::pair_value(pairs, other))
        }),
{
    let kept = match prev {
        Some(JsonView::Object(pairs)) => foreign_members(pairs),
        _ => Seq::empty(),
    };
    let made = match json::pair_value(kept, "createdAt"@) {
        Some(_) => kept,
        None => json::with_pair(kept, "createdAt"@, JsonView::Text(now)),
    };
    let changed = json::with_pair(made, "updatedAt"@, JsonView::Text(now));
    let placed = json::with_pair(changed, "path"@, JsonView::Text(w.path));
    let titled = json::with_pair(placed, "title"@, JsonView::Text(w.title));
    let ids = json::text_array(w.session_ids);
    reveal_strlit("path");
    reveal_strlit("title");
    reveal_strlit("sessionIds");
    reveal_strlit("updatedAt");
    reveal_strlit("createdAt");
    assert("path"@.len() == 4 && "title"@.len() == 5 && "sessionIds"@.len() == 10);
    assert("updatedAt"@[0] == 'u' && "createdAt"@[0] == 'c' && "updatedAt"@.len() == 9);
    assert("createdAt"@.len() == 9);
    let keys = seq!["path"@, "title"@, "sessionIds"@, "updatedAt"@, "createdAt"@];
    assert forall|i: int| 0 <= i < 5 implies ({
        let k = #[trigger] keys[i];
        &&& json::pair_value(json::with_pair(titled, "sessionIds"@, ids), k) == (if k
            == "sessionIds"@ {
            Some(ids)
        } else {
            json::pair_value(titled, k)
        })
        &&& json::pair_value(titled, k) == (if k == "title"@ {
            Some(JsonView::Text(w.title))
        } else {
            json::pair_value(placed, k)
        })
        &&& json::pair_value(placed, k) == (if k == "path"@ {
            Some(JsonView::Text(w.path))
        } else {
            json::pair_value(changed, k)
        })
        &&& json::pair_value(changed, k) == (if k == "updatedAt"@ {
            Some(JsonView::Text(now))
        } else {
            json::pair_value(made, k)
        })
    }) by {
        let k = keys[i];
        json::lemma_with_pair(titled, "sessionIds"@, ids, k);
        json::lemma_with_pair(placed, "title"@, JsonView::Text(w.title), k);
        json::lemma_with_pair(changed, "path"@, JsonView::Text(w.path), k);
        json::lemma_with_pair(made, "updatedAt"@, JsonView::Text(now), k);
    }
    assert(keys[0] == "path"@ && keys[1] == "title"@ && keys[2] == "sessionIds"@ && keys[3]
        == "updatedAt"@ && keys[4] == "createdAt"@);
    json::lemma_with_pair(kept, "createdAt"@, JsonView::Text(now), "createdAt"@);
    json::lemma_with_pair(titled, "sessionIds"@, ids, other);
    json::lemma_with_pair(placed, "title"@, JsonView::Text(w.title), other);
    json::lemma_with_pair(changed, "path"@, JsonView::Text(w.path), other);
    json::lemma_with_pair(made, "updatedAt"@, JsonView::Text(now), other);
    json::lemma_with_pair(kept, "createdAt"@, JsonView::Text(now), other);
    if let Some(JsonView::Object(pairs)) = prev {
        if json::keys_distinct(pairs) && !own_member(other) {
            lemma_foreign_kept(pairs, other);
        }
    }
}

proof fn lemma_foreign_kept(pairs: JsonPairs, key: Seq<char>)
    requires
        json::keys_distinct(pairs),
        !own_member(key),
    ensures
        json::pair_value(foreign_members(pairs), key) == json::pair_value(pairs, key),
    decreases pairs.len(),
{
    if pairs.len() > 0 {
        let head = pairs.drop_last();
        let last = pairs.last();
        assert(json::keys_distinct(head)) by {
            assert forall|i: int, j: int| 0 <= i < j < head.len() implies head[i].0 != head[j].0 by {
                assert(pairs[i].0 != pairs[j].0);
            }
        }
        lemma_foreign_kept(head, key);
        json::lemma_with_pair(foreign_members(head), last.0, last.1, key);
        assert(pairs =~= head.push(last));
        assert(json::with_pair(head, last.0, last.1) == pairs) by {
            json::lemma_key_absent(head, last.0);
        }
        json::lemma_with_pair(head, last.0, last.1, key);
    }
}

/// A workspace reads from its row: the texts under the keys of its title and
/// folder, and the list of its sessions.
pub proof fn workspace_reads_from_its_row(
    id: Seq<char>,
    row: JsonView,
    title: Seq<char>,
    path: Seq<char>,
    sessions: Seq<Seq<char>>,
)
    requires
        row.member("title"@) == Some(JsonView::Text(title)),
        row.member("path"@) == Some(JsonView::Text(path)),
        row.member("sessionIds"@) == Some(json::text_array(sessions)),
    ensures
        workspace_from(id, row) == (WorkspaceView { id, title, path, session_ids: sessions }),
{
    json::lemma_texts_of_array(sessions);
}

/// The workspaces of a document are those that it lists and has a row for, in
/// the order of the list.
pub proof fn listed_workspaces_are_read(
    ids: Seq<Seq<char>>,
    rows: Option<JsonView>,
    id: Seq<char>,
)
    ensures
        json::member_of(rows, id) is None ==> workspaces_from(ids.push(id), rows)
            == workspaces_from(ids, rows),
        json::member_of(rows, id) matches Some(row) ==> workspaces_from(ids.push(id), rows)
            == workspaces_from(ids, rows).push(workspace_from(id, row)),
        workspaces_from(Seq::empty(), rows) == Seq::<WorkspaceView>::empty(),
{
    assert(ids.push(id).drop_last() =~= ids);
}

/// Archiving a session keeps those that were archived before it, in order, and
/// lists it behind them once.
pub proof fn archiving_keeps_the_archived(items: Seq<JsonView>, id: Seq<char>)
    ensures
        ({
            let after = archive_list(Some(JsonView::Array(items)), id);
            &&& after is Array
            &&& after->Array_0.len() <= items.len() + 1
            &&& items.len() <= after->Array_0.len()
            &&& after->Array_0.take(items.len() as int) == items
            &&& after->Array_0.contains(JsonView::Text(id))
            &&& items.contains(JsonView::Text(id)) ==> after->Array_0 == items
            &&& archive_list(None, id) == JsonView::Array(seq![JsonView::Text(id)])
        }),
{
    let after = archive_list(Some(JsonView::Array(items)), id)->Array_0;
    if lists_text(items, id) {
        assert(items.take(items.len() as int) =~= items);
    } else {
        assert(after.take(items.len() as int) =~= items);
        assert(after[after.len() - 1] == JsonView::Text(id));
        if items.contains(JsonView::Text(id)) {
            let i = choose|i: int| 0 <= i < items.len() && items[i] == JsonView::Text(id);
            assert(items[i] == JsonView::Text(id));
        }
    }
}

/// A new document holds no workspace and no archived session, and can hold
/// them.
pub proof fn new_document_is_empty()
    ensures
        workspaces_of(Some(empty_document())) == Seq::<WorkspaceView>::empty(),
        archived_of(Some(empty_document())) == Seq::<Seq<char>>::empty(),
        keeps_workspaces(empty_document()),
        document_of(None) == empty_document(),
{
    reveal_strlit("unit");
    reveal_strlit("global");
    reveal_strlit("tables");
    reveal_strlit("initialized");
    reveal_strlit("workspaceIds");
    reveal_strlit("archivedSessionIds");
    assert("unit"@.len() == 4 && "global"@.len() == 6 && "tables"@.len() == 6);
    assert("global"@[0] == 'g' && "tables"@[0] == 't' && "initialized"@.len() == 11);
    assert("workspaceIds"@.len() == 12 && "archivedSessionIds"@.len() == 18);
    let top = empty_document()->Object_0;
    json::first_pair_with_the_key_counts(top, "global"@, 1);
    json::first_pair_with_the_key_counts(top, "tables"@, 2);
    let g = top[1].1->Object_0;
    json::first_pair_with_the_key_counts(g, "workspaceIds"@, 1);
    json::first_pair_with_the_key_counts(g, "archivedSessionIds"@, 2);
}

} // verus!
