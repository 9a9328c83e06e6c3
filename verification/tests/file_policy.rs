use dsh::fs::{
    canonicalize_best_effort, exists_outcome, expand_home, fs_request, list_outcome, plan_for,
    read_arguments, read_outcome, write_outcome, AllowAllPolicy, Disk, FsAction, FsMode, FsPolicy,
    FsTool, Part, Probe, SwitchablePolicy, WorkspaceContainment,
};
use dsh::json::{self, Json};
use std::cell::Cell;

/// The components of a Unix path.
fn parts(path: &str) -> Vec<Part> {
    let mut v = Vec::new();
    if path.starts_with('/') {
        v.push(Part::Root("/".to_string()));
    }
    for p in path.split('/').filter(|p| !p.is_empty()) {
        v.push(match p {
            "." => Part::Current,
            ".." => Part::Up,
            name => Part::Name(name.to_string()),
        });
    }
    v
}

/// A path on a file system that holds `existing`, without links.
fn probe(path: &str, existing: &[&str]) -> Probe {
    let all = parts(path);
    let mut reals = Vec::new();
    for k in 0..all.len() {
        let ancestor = &all[..all.len() - k];
        let known = existing.iter().any(|e| shown(&parts(e)) == shown(ancestor));
        reals.push(if known { Some(ancestor.to_vec()) } else { None });
    }
    Probe { path: path.to_string(), parts: all, reals }
}

fn shown(parts: &[Part]) -> String {
    parts
        .iter()
        .map(|p| match p {
            Part::Root(s) => s.clone(),
            Part::Current => ".".to_string(),
            Part::Up => "..".to_string(),
            Part::Name(s) => s.clone(),
        })
        .collect::<Vec<String>>()
        .join("|")
}

/// What a file system that holds `existing` says of `asked`.
fn disk(asked: &[&str], existing: &[&str]) -> Disk {
    Disk { home: None, probes: asked.iter().map(|p| probe(p, existing)).collect() }
}

fn owned(v: &[&str]) -> Vec<String> {
    v.iter().map(|s| s.to_string()).collect()
}

#[test]
fn empty_roots_deny_all_writes() {
    let policy = WorkspaceContainment::new(Vec::new());
    assert!(!policy.allow_write("/tmp/x", &disk(&["/tmp/x"], &["/", "/tmp"])));
}

#[test]
fn write_inside_root_allowed_outside_denied() {
    let held = ["/", "/tmp", "/tmp/dsh-fs-test", "/tmp/dsh-fs-test/sub", "/etc", "/etc/hosts"];
    let d = disk(&["/tmp/dsh-fs-test/sub/new.txt", "/etc/hosts", "/tmp/dsh-fs-test"], &held);
    let policy = WorkspaceContainment::new(owned(&["/tmp/dsh-fs-test"]));
    assert!(policy.allow_write("/tmp/dsh-fs-test/sub/new.txt", &d));
    assert!(!policy.allow_write("/etc/hosts", &d));
}

#[test]
fn nonexistent_target_uses_ancestor_containment() {
    let held = ["/", "/tmp", "/tmp/d", "/tmp/d/a", "/tmp/d/a/b"];
    let d = disk(&["/tmp/d/a/b/c/d.txt", "/tmp/d/outside/x.txt", "/tmp/d/a"], &held);
    let policy = WorkspaceContainment::new(owned(&["/tmp/d/a"]));
    assert!(policy.allow_write("/tmp/d/a/b/c/d.txt", &d));
    assert!(!policy.allow_write("/tmp/d/outside/x.txt", &d));
}

#[test]
fn switchable_policy_three_modes() {
    let root = "/tmp/dsh-fs-mode";
    let (inside, outside) = ("/tmp/dsh-fs-mode/in.txt", "/tmp/dsh-fs-mode-out.txt");
    let d = disk(&[inside, outside, root], &["/", "/tmp", "/tmp/dsh-fs-mode"]);
    let mut policy = SwitchablePolicy::new(FsMode::WorkspaceWrite, owned(&[root]));
    assert!(policy.allow_write(inside, &d));
    assert!(!policy.allow_write(outside, &d));
    policy.set_mode(FsMode::ReadOnly);
    assert!(!policy.allow_write(inside, &d));
    assert!(!policy.allow_write(outside, &d));
    policy.set_mode(FsMode::DangerFullAccess);
    assert!(policy.allow_write(outside, &d));
    assert_eq!(policy.mode(), FsMode::DangerFullAccess);
}

#[test]
fn only_the_roots_of_the_policy_count() {
    let d = disk(&["/b/x", "/a", "/b"], &["/", "/a", "/b"]);
    let mut policy = WorkspaceContainment::new(owned(&["/a"]));
    assert!(!policy.allow_write("/b/x", &d));
    policy.set_roots(owned(&["/a", "/b"]));
    assert!(policy.allow_write("/b/x", &d));
    assert!(!policy.allow_write("/b/y", &d));
    assert!(!policy.allow_write("/b/x", &disk(&["/b/x", "/a"], &["/", "/a", "/b"])));
}

#[test]
fn the_home_of_a_root_and_a_path_is_put_in() {
    let mut d = disk(&["/home/u/ws/new", "/home/u/ws"], &["/", "/home", "/home/u", "/home/u/ws"]);
    d.home = Some("/home/u".to_string());
    let policy = WorkspaceContainment::new(owned(&["~/ws"]));
    assert!(policy.allow_write("~/ws/new", &d));
    assert!(policy.allow_write("/home/u/ws/new", &d));
}

#[test]
fn leading_up_behind_missing_names_leaves_the_workspace() {
    let out = "/r/ws/nope/../../etc/x";
    let back = "/r/ws/nope/../x";
    let d = disk(&[out, back, "/r/ws"], &["/", "/r", "/r/ws"]);
    let policy = WorkspaceContainment::new(owned(&["/r/ws"]));
    assert!(!policy.under_any(out, &d));
    assert!(policy.under_any(back, &d));
    assert_eq!(shown(&canonicalize_best_effort(&probe(out, &["/", "/r", "/r/ws"]))), "/|r|etc|x");
    assert_eq!(shown(&canonicalize_best_effort(&probe("/../a", &[]))), "/|a");
}

#[test]
fn fs_mode_web_roundtrip() {
    assert_eq!(FsMode::from_web("read-only"), Some(FsMode::ReadOnly));
    assert_eq!(FsMode::from_web("workspace-write"), Some(FsMode::WorkspaceWrite));
    assert_eq!(
        FsMode::from_web("danger-full-access"),
        Some(FsMode::DangerFullAccess)
    );
    assert_eq!(FsMode::from_web("nope"), None);
    assert_eq!(FsMode::WorkspaceWrite.as_web(), "workspace-write");
}

#[test]
fn read_on_directory_points_to_list() {
    let result = read_outcome("/tmp/dir", true, Err("os error 5".to_string()));
    assert!(result.is_error);
    assert!(result.text.contains("is a directory") && result.text.contains("op=list"));
}

#[test]
fn write_carries_file_diff_presentation() {
    let tool = FsTool::new(AllowAllPolicy);
    let at = disk(&["/tmp/a.txt"], &["/", "/tmp"]);
    assert!(matches!(tool.plan("write", "/tmp/a.txt", &at), Ok(FsAction::Write)));

    let r = write_outcome("/tmp/a.txt", "hi", None, Ok(()));
    assert!(!r.is_error);
    let meta = r.presentation.unwrap();
    assert_eq!(meta.get("card").unwrap().as_text().unwrap(), "diff");
    let first = first_of(meta.get("diffs").unwrap());
    assert!(matches!(first.get("oldText"), Some(Json::Null)));
    assert_eq!(first.get("newText").unwrap().as_text().unwrap(), "hi");
    assert!(r.text.starts_with("wrote "));

    let r = write_outcome("/tmp/a.txt", "bye", Some("hi".to_string()), Ok(()));
    let meta = r.presentation.unwrap();
    let first = first_of(meta.get("diffs").unwrap());
    assert_eq!(first.get("oldText").unwrap().as_text().unwrap(), "hi");
    assert_eq!(first.get("newText").unwrap().as_text().unwrap(), "bye");
}

fn first_of(list: &Json) -> &Json {
    match list {
        Json::Array(v) => &v[0],
        _ => panic!("a list was expected"),
    }
}

#[test]
fn missing_names_follow_the_nearest_ancestor() {
    let mut p = probe("/work/x/y.txt", &["/", "/work"]);
    p.reals[2] = Some(parts("/real/work"));
    assert_eq!(shown(&canonicalize_best_effort(&p)), "/|real|work|x|y.txt");
    let unknown = Probe { path: "a/b".to_string(), parts: parts("a/b"), reals: Vec::new() };
    assert_eq!(shown(&canonicalize_best_effort(&unknown)), "a|b");
}

#[test]
fn links_out_of_the_workspace_are_followed() {
    let mut d = disk(&["/work/link/x", "/work"], &["/", "/work"]);
    let policy = WorkspaceContainment::new(owned(&["/work"]));
    assert!(policy.allow_write("/work/link/x", &d));
    d.probes[0].reals[1] = Some(parts("/etc"));
    assert!(!policy.allow_write("/work/link/x", &d));
}

#[test]
fn home_is_put_in_for_a_tilde() {
    assert_eq!(expand_home("~/a", Some("/home/u")), "/home/u/a");
    assert_eq!(expand_home("/a", Some("/home/u")), "/a");
}

#[test]
fn unknown_operations_are_refused() {
    assert!(plan_for("chmod", "/a", true, true, "no").is_err());
    assert!(plan_for("read", "/a", false, true, "no").is_err());
    assert!(plan_for("write", "/a", true, false, "no").is_err());
    assert!(matches!(plan_for("exists", "/a", true, false, "no"), Ok(FsAction::Exists)));
    assert!(matches!(plan_for("list", "/a", true, false, "no"), Ok(FsAction::List)));
    assert!(matches!(plan_for("read", "/a", true, false, "no"), Ok(FsAction::Read)));
}

#[test]
fn refused_writes_name_the_reason() {
    let policy = SwitchablePolicy::new(FsMode::ReadOnly, owned(&["/w"]));
    let tool = FsTool::new(policy);
    let at = disk(&["/w/a", "/w"], &["/", "/w"]);
    match tool.plan("write", "/w/a", &at) {
        Err(out) => {
            assert!(out.is_error);
            assert_eq!(out.text, "write denied: the session is read-only (permission preset)");
        }
        Ok(_) => panic!("the write was allowed"),
    }
    assert!(tool.plan("read", "/w/a", &at).is_ok());
    match tool.plan_switched("write", "", &at) {
        Err(out) => assert_eq!(out.text, "path must be a non-empty string"),
        Ok(_) => panic!("the write was allowed"),
    }
}

/// Refuses everything, and counts what it is asked.
struct Counting {
    reads: Cell<u32>,
    writes: Cell<u32>,
    reasons: Cell<u32>,
}

impl FsPolicy for Counting {
    fn allow_read(&self, _path: &str) -> bool {
        self.reads.set(self.reads.get() + 1);
        false
    }

    fn allow_write(&self, _path: &str, _disk: &Disk) -> bool {
        self.writes.set(self.writes.get() + 1);
        false
    }

    fn deny_reason(&self) -> &'static str {
        self.reasons.set(self.reasons.get() + 1);
        "never"
    }
}

#[test]
fn a_policy_is_asked_what_an_operation_needs() {
    let zero = || Cell::new(0);
    let tool = FsTool::new(Counting { reads: zero(), writes: zero(), reasons: zero() });
    let d = disk(&[], &[]);
    let asked = |t: &FsTool<Counting>| {
        (t.policy.reads.get(), t.policy.writes.get(), t.policy.reasons.get())
    };
    assert_eq!(tool.plan("write", "/a", &d).err().unwrap().text, "never");
    assert_eq!(asked(&tool), (0, 1, 1));
    assert_eq!(tool.plan("list", "/a", &d).err().unwrap().text, "never");
    assert_eq!(asked(&tool), (1, 1, 2));
    assert_eq!(tool.plan("chmod", "/a", &d).err().unwrap().text, "unknown op \"chmod\"");
    assert!(tool.plan("read", "", &d).is_err());
    assert_eq!(asked(&tool), (1, 1, 2));
}

#[test]
fn outcomes_say_what_happened() {
    assert_eq!(exists_outcome(true).text, "true");
    assert_eq!(exists_outcome(false).text, "false");
    let names = list_outcome(Ok(owned(&["b", "a"])));
    assert!(!names.is_error);
    assert!(list_outcome(Err("gone".to_string())).is_error);
    assert!(read_outcome("/a", false, Err("gone".to_string())).is_error);
    assert_eq!(read_outcome("/a", false, Ok("text".to_string())).text, "text");
    assert!(write_outcome("/a", "x", None, Err("full".to_string())).is_error);
}

#[test]
fn requests_fall_back_to_empty_fields() {
    let req = fs_request(&Json::Object(vec![
        ("op".to_string(), Json::Text("read".to_string())),
        ("path".to_string(), Json::Text("a".to_string())),
    ]));
    assert_eq!((req.op.as_str(), req.path.as_str(), req.content.as_str()), ("read", "a", ""));
}

#[test]
fn the_tool_describes_its_arguments() {
    let tool = FsTool::new(AllowAllPolicy);
    let d = tool.definition();
    assert_eq!(d.name, "fs");
    assert_eq!(d.description, "Read, write, list, or check files on the local filesystem.");
    let op = d.parameters.get("properties").and_then(|p| p.get("op")).unwrap();
    let ops = json::read_text_list(op.get("enum"));
    assert_eq!(ops, owned(&["read", "write", "list", "exists"]));
    let required = json::read_text_list(d.parameters.get("required"));
    assert_eq!(required, owned(&["op", "path"]));
    let told = d.schema();
    assert_eq!((told.name.as_str(), told.description.as_str()), (d.name, d.description));
    assert!(told.parameters.contains("\"Filesystem path.\""));
    let call = fs_request(&read_arguments(r#"{"op":"write","path":"p","content":"c"}"#));
    assert_eq!((call.op.as_str(), call.path.as_str(), call.content.as_str()), ("write", "p", "c"));
    let broken = fs_request(&read_arguments("{"));
    assert_eq!((broken.op.as_str(), broken.path.as_str()), ("", ""));
}
