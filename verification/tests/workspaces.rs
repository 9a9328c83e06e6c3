use dsh::roster::{
    blank_session_in, drops_left_session, drops_moved_session, forget_session, fork_session,
    can_increase, forked_meta, increased_fork_title, may_archive, new_session_meta, new_web_session_id,
    rename_session, workspace_of_session, BlankSearch, SessionMeta, StartTarget, Workspaces,
};
use dsh::workspace::{
    archive_session_doc, load_archived_ids, load_workspaces, save_workspaces, WorkspaceInfo,
};

fn workspace(id: &str, path: &str, sessions: &[&str]) -> WorkspaceInfo {
    WorkspaceInfo {
        id: id.to_string(),
        title: format!("title of {id}"),
        path: path.to_string(),
        session_ids: sessions.iter().map(|s| s.to_string()).collect(),
    }
}

fn meta(id: &str, cwd: Option<&str>) -> SessionMeta {
    SessionMeta {
        id: id.to_string(),
        title: "t".to_string(),
        time_label: String::new(),
        cwd: cwd.map(|s| s.to_string()),
        blank: false,
    }
}

fn ids(v: &[WorkspaceInfo]) -> Vec<String> {
    v.iter().map(|w| w.id.clone()).collect()
}

#[test]
fn saved_workspaces_are_read_back() {
    let list = vec![workspace("w2", "/b", &["s1", "s2"]), workspace("w1", "/a\"\n", &[])];
    let raw = save_workspaces(&None, &list, "2024-01-01T00:00:00.000Z");
    assert!(raw.is_some());
    let back = load_workspaces(&raw);
    assert_eq!(ids(&back), vec!["w2", "w1"]);
    assert_eq!(back[0].session_ids, vec!["s1", "s2"]);
    assert_eq!(back[0].title, "title of w2");
    assert_eq!(back[1].path, "/a\"\n");
}

#[test]
fn saving_keeps_other_fields() {
    let raw = Some(
        r#"{"unit":{"x":1},"global":{"workspaceIds":["w"],"archivedSessionIds":["a"]},
            "tables":{"workspaces":{"w":{"title":"old","path":"/p","sessionIds":[],"createdAt":"then","more":[1,2.5]}},"other":{}}}"#
            .to_string(),
    );
    let saved = save_workspaces(&raw, &load_workspaces(&raw), "now");
    assert_eq!(load_archived_ids(&saved), vec!["a"]);
    let text = saved.clone().unwrap();
    for part in ["\"x\": 1", "\"createdAt\": \"then\"", "\"updatedAt\": \"now\"", "2.5", "\"other\""] {
        assert!(text.contains(part), "{part}");
    }
    assert_eq!(load_workspaces(&saved)[0].title, "old");
}

#[test]
fn archiving_lists_a_session_once() {
    let once = archive_session_doc(&None, "s");
    let twice = archive_session_doc(&once, "s");
    assert_eq!(load_archived_ids(&once), vec!["s"]);
    assert_eq!(load_archived_ids(&twice), vec!["s"]);
    let list = vec![workspace("w", "/p", &["s"])];
    let with = save_workspaces(&twice, &list, "now");
    let more = archive_session_doc(&with, "t");
    assert_eq!(load_archived_ids(&more), vec!["s", "t"]);
    assert_eq!(load_workspaces(&more)[0].session_ids, vec!["s"]);
}

#[test]
fn documents_that_do_not_read_hold_nothing() {
    assert!(load_workspaces(&None).is_empty());
    assert!(load_workspaces(&Some("{".to_string())).is_empty());
    assert!(load_archived_ids(&Some("[]".to_string())).is_empty());
    let row_missing = Some(r#"{"global":{"workspaceIds":["w"]}}"#.to_string());
    assert!(load_workspaces(&row_missing).is_empty());
}

#[test]
fn session_ids_are_fresh() {
    let a = new_web_session_id();
    let b = new_web_session_id();
    assert_ne!(a, b);
    assert!(a.starts_with("session-"));
    assert_eq!(a.len(), "session-".len() + 36);
    assert_eq!(a.as_bytes()["session-".len() + 14], b'4');
}

#[test]
fn a_session_belongs_to_one_workspace() {
    let mut w = Workspaces {
        list: vec![workspace("a", "/a", &["s"]), workspace("b", "/b", &["t"])],
        current: None,
    };
    w.assign_session_to_workspace("s", Some("b"));
    assert!(w.list[0].session_ids.is_empty());
    assert_eq!(w.list[1].session_ids.len(), 2);
    assert!(w.list[1].session_ids.contains(&"s".to_string()));
    assert_eq!(workspace_of_session(&w.list, "s"), Some(1));
    w.assign_session_to_workspace("s", None);
    assert_eq!(workspace_of_session(&w.list, "s"), None);
}

#[test]
fn workspaces_come_and_go() {
    let mut w = Workspaces { list: Vec::new(), current: None };
    let id = w.create_workspace("/p/dir".to_string(), Some("dir".to_string()));
    assert_eq!(w.list.len(), 1);
    assert_eq!(w.list[0].title, "dir");
    assert_eq!(w.path_of(&id).as_deref(), Some("/p/dir"));
    w.rename_workspace(&id, "new".to_string());
    assert_eq!(w.list[0].title, "new");
    w.current = Some(id.clone());
    w.delete_workspace(&id);
    assert!(w.list.is_empty());
    assert_eq!(w.path_of(&id), None);
}

#[test]
fn new_sessions_find_their_workspace() {
    let metas = vec![meta("x", None), meta("t", Some("/b"))];
    let mut w = Workspaces {
        list: vec![workspace("a", "/a", &["s"]), workspace("b", "/b", &["t"])],
        current: None,
    };
    assert_eq!(w.resolve_target_workspace("s", &metas).as_deref(), Some("a"));
    assert_eq!(w.resolve_target_workspace("none", &metas).as_deref(), Some("b"));
    assert_eq!(w.resolve_target_workspace("none", &Vec::new()).as_deref(), Some("a"));
    w.current = Some("b".to_string());
    assert_eq!(w.resolve_target_workspace("s", &metas).as_deref(), Some("b"));
    assert!(matches!(w.start_target(true, "s", &metas), StartTarget::Busy));
    match w.start_target(false, "s", &metas) {
        StartTarget::In { workspace, cwd } => assert_eq!((workspace.as_str(), cwd.as_str()), ("b", "/b")),
        _ => panic!("a workspace was expected"),
    }
    let none = Workspaces { list: Vec::new(), current: None };
    assert!(matches!(none.start_target(false, "s", &metas), StartTarget::Draft));
    assert_eq!(w.bound_path("/c"), "/b");
    assert_eq!(none.bound_path("/c"), "/c");
}

#[test]
fn blank_sessions_are_used_again() {
    let metas = vec![meta("s", Some("/a")), meta("t", Some("/a")), meta("u", Some("/a"))];
    let archived = vec!["t".to_string()];
    assert!(matches!(blank_session_in(&metas, "s", true, &archived, "/a"), BlankSearch::Current));
    match blank_session_in(&metas, "s", false, &archived, "/a") {
        BlankSearch::Among(v) => assert_eq!(v, vec!["u"]),
        _ => panic!("others were expected"),
    }
    match blank_session_in(&metas, "s", true, &archived, "/b") {
        BlankSearch::Among(v) => assert!(v.is_empty()),
        _ => panic!("others were expected"),
    }
}

#[test]
fn left_sessions_are_dropped_where_nothing_is_lost() {
    let list = vec![workspace("a", "/a", &["s"])];
    assert!(!drops_left_session(&list, "s", true));
    assert!(drops_left_session(&list, "t", true));
    assert!(!drops_left_session(&list, "t", false));
    assert!(drops_moved_session("/a", "/b", true));
    assert!(!drops_moved_session("/a", "/a", true));
    assert!(!drops_moved_session("/a", "/b", false));
    assert_eq!(forget_session(vec![meta("s", None), meta("t", None)], "s").len(), 1);
}

#[test]
fn sessions_are_renamed_and_forked() {
    let mut metas = vec![meta("s", Some("/a")), meta("t", None)];
    assert_eq!(rename_session(&mut metas, "s", "  "), None);
    assert_eq!(
        rename_session(&mut metas, "s", " new "),
        Some(("/a".to_string(), "new".to_string()))
    );
    assert_eq!(metas[0].title, "new");
    assert_eq!(rename_session(&mut metas, "t", "x"), None);
    assert_eq!(metas[1].title, "x");
    assert_eq!(
        fork_session(&metas, "s", false),
        Some(("/a".to_string(), "new".to_string()))
    );
    assert_eq!(fork_session(&metas, "s", true), None);
    assert_eq!(fork_session(&metas, "t", false), None);
    let f = forked_meta("f".to_string(), "new (1)".to_string(), "/a".to_string(), false);
    assert_eq!((f.title.as_str(), f.blank), ("new (1)", false));
    let n = new_session_meta("n".to_string(), "/a".to_string());
    assert_eq!((n.title.as_str(), n.time_label.as_str(), n.blank), ("新会话", "刚刚", true));
    assert!(!may_archive(true, "s", "s"));
    assert!(may_archive(true, "s", "t"));
}

#[test]
fn forks_count_up() {
    assert_eq!(increased_fork_title("a"), "a (1)");
    assert_eq!(increased_fork_title("a (1)"), "a (2)");
    assert_eq!(increased_fork_title("a (9)"), "a (10)");
    assert_eq!(increased_fork_title("标题（3）"), "标题（4）");
    assert_eq!(increased_fork_title("a (x)"), "a (x) (1)");
    assert!(can_increase("a") && can_increase("a (1)") && can_increase("标题（3）"));
    assert!(can_increase("a (18446744073709551614)"));
    assert!(can_increase("a (18446744073709551616)"));
    assert!(!can_increase("a (18446744073709551615)"));
    assert!(!can_increase("标题（018446744073709551615）"));
}
