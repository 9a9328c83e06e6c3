use dsh::agent::AgentEvent;
use dsh::composer::{
    captured_image, draft_card, enter_gate, file_mentions, file_note, resolve_file_references,
    send_gate, split_words, title_session, Drafts, FileRef, PickedFile, SendGate, Sending,
    SentCard, CONTENT_LIMIT,
};
use dsh::fs::FsMode;
use dsh::host::{
    export_message, export_name, is_dark, is_log, last_user_text, listed_title, mock_reply,
    mock_thought, on_agent_event, reply_pieces, shell_section_text, startup_choice,
    switch_session, SessionSwitch, Startup,
};
use dsh::menus::{
    clears_draft, command_rows, foreign_text, has_folder, model_rows, session_title, slash_query,
    workspace_label, Command, CommandAct, CommandRow, Menus, ModelRow,
};
use dsh::roster::SessionMeta;
use dsh::session::{ContentBlock, Message, MessageRole, MessageSource, TurnEndReason};
use dsh::settings::{AppearanceMode, CustomModel, CustomProvider, EnterBehavior};
use dsh::view_split::{split_step, SplitEvent, ViewSplit};
use dsh::workspace::WorkspaceInfo;

fn owned(v: &[&str]) -> Vec<String> {
    v.iter().map(|s| s.to_string()).collect()
}

#[test]
fn words_stand_between_blanks() {
    for s in ["", "  ", "a", " a  b\tc\u{3000}d\n"] {
        let want: Vec<String> = s.split_whitespace().map(|w| w.to_string()).collect();
        assert_eq!(split_words(s), want);
    }
}

#[test]
fn mentions_lose_the_marks_around_them() {
    assert_eq!(
        file_mentions("see @a.rs, and (@b.rs) @（x） @\"c d\" @、。 @src/main.rs！"),
        owned(&["a.rs", "（x）", "c", "src/main.rs"])
    );
    assert!(file_mentions("mail@example.com @").is_empty());
}

#[test]
fn references_are_taken_once() {
    let found = vec![
        ("/a".to_string(), None),
        ("/a".to_string(), Some("one".to_string())),
        ("/a".to_string(), Some("two".to_string())),
        ("/b".to_string(), Some("x".repeat(CONTENT_LIMIT + 1))),
    ];
    let refs = resolve_file_references(found);
    assert_eq!(refs.len(), 2);
    assert_eq!(refs[0], ("/a".to_string(), "one".to_string()));
    assert_eq!(refs[1].1, format!("{}\n…（内容过长已截断）", "x".repeat(CONTENT_LIMIT)));
}

#[test]
fn a_referred_file_is_sent_and_shown() {
    let n = file_note("/w/a.rs", Some("a.rs"), "fn main() {}");
    match &n.message.content[0] {
        ContentBlock::Text { text } => assert_eq!(text, "引用文件：/w/a.rs\nfn main() {}"),
        other => panic!("a text was expected, got {other:?}"),
    }
    match &n.message.source {
        MessageSource::Context(c) => {
            assert_eq!(c.kind, "file-reference");
            assert_eq!(c.summary.as_deref(), Some("引用文件 a.rs"));
            assert_eq!(c.changes_paths, vec!["/w/a.rs"]);
            assert_eq!(c.reference_labels, vec!["a.rs"]);
        }
        other => panic!("context was expected, got {other:?}"),
    }
    assert_eq!(n.info.title, "上下文注入");
    assert_eq!(n.info.label.as_deref(), Some("a.rs"));
    assert_eq!(n.info.summary.as_deref(), Some("引用文件 a.rs"));
    assert_eq!(n.text, "引用文件 /w/a.rs");
}

fn picked(name: Option<&str>) -> PickedFile {
    PickedFile {
        path: "/w/f.png".to_string(),
        name: name.map(|s| s.to_string()),
        bytes: 2048,
    }
}

fn stored(id: &str) -> FileRef {
    FileRef { attachment_id: id.to_string(), name: "f.png".to_string(), bytes: 2048 }
}

#[test]
fn attached_files_are_stored_before_they_are_sent() {
    let mut d = Drafts::new();
    d.add_attachment_paths(vec![(picked(Some("f.png")), 7), (picked(None), 8)]);
    assert_eq!(d.files[0].id, "draft-7-0");
    assert_eq!(d.files[1].id, "draft-8-1");
    assert_eq!(d.files[1].name, "file");
    assert!(matches!(d.send_user_turn("hi"), Sending::HeldUp));
    assert!(d.held_up);
    assert_eq!(d.files.len(), 2);
    assert_eq!(draft_card(&d.files[0]).meta, "上传中…");
    d.stored("draft-7-0", Ok((stored("sha256:ab"), Some("sha256:ab".to_string()))));
    d.stored("draft-8-1", Err("full".to_string()));
    assert_eq!(draft_card(&d.files[0]).meta, "PNG 2.0KB");
    let failed = draft_card(&d.files[1]);
    assert!(failed.failed);
    assert_eq!(failed.meta, "上传失败，点击重试");
    assert!(matches!(d.send_user_turn("hi"), Sending::HeldUp));
    assert_eq!(
        d.retry_attachment("draft-8-1"),
        Some(("/w/f.png".to_string(), "file".to_string()))
    );
    assert_eq!(d.retry_attachment("none"), None);
    d.stored_again("draft-8-1", Ok(stored("sha256:cd")));
    match d.send_user_turn("hi") {
        Sending::Sent(m) => {
            assert_eq!(m.text.as_deref(), Some("hi"));
            assert!(matches!(&m.cards[0], SentCard::Image { object } if object == "ab"));
            assert!(matches!(&m.cards[1], SentCard::File { bytes: 2048, .. }));
            assert_eq!(m.message.content.len(), 3);
            assert!(matches!(&m.message.content[0], ContentBlock::Image { .. }));
            assert!(matches!(&m.message.content[1], ContentBlock::File { .. }));
            assert!(matches!(&m.message.content[2], ContentBlock::Text { .. }));
            assert_eq!(m.message.role, MessageRole::User);
        }
        _ => panic!("a message was expected"),
    }
    assert!(d.files.is_empty() && !d.held_up);
    assert!(matches!(d.send_user_turn(""), Sending::Nothing));
}

#[test]
fn a_removed_file_is_gone() {
    let mut d = Drafts::new();
    d.add(picked(None), 1);
    d.add(picked(None), 2);
    d.held_up = true;
    d.remove_attachment("draft-1-0");
    assert_eq!(d.files.len(), 1);
    assert_eq!(d.files[0].id, "draft-2-1");
    assert!(d.held_up);
    d.remove_attachment("draft-2-1");
    assert!(d.files.is_empty() && !d.held_up);
}

#[test]
fn only_measured_images_count_as_images() {
    let r = stored("sha256:ab");
    assert_eq!(captured_image(Some("PNG"), &r, Some((1, 1))).as_deref(), Some("sha256:ab"));
    assert_eq!(captured_image(Some("png"), &r, None), None);
    assert_eq!(captured_image(Some("txt"), &r, Some((1, 1))), None);
}

#[test]
fn sending_is_gated() {
    let idle = ViewSplit { agent_busy: false, peeking: false };
    let busy = ViewSplit { agent_busy: true, peeking: false };
    let away = ViewSplit { agent_busy: true, peeking: true };
    let left = ViewSplit { agent_busy: false, peeking: true };
    let q = EnterBehavior::Queue;
    let cut = EnterBehavior::Interrupt;
    assert!(matches!(send_gate(true, idle, "x", false, q), SendGate::ChooseWorkspace));
    assert!(matches!(send_gate(false, away, "x", false, q), SendGate::Stay));
    assert!(matches!(
        send_gate(false, idle, " ", false, q),
        SendGate::Nothing { commit: false }
    ));
    assert!(matches!(
        send_gate(false, left, " ", false, q),
        SendGate::Nothing { commit: true }
    ));
    match send_gate(false, busy, " x ", false, cut) {
        SendGate::Go { commit, interrupt, text } => {
            assert_eq!((commit, interrupt, text.as_str()), (false, true, "x"));
        }
        other => panic!("{other:?}"),
    }
    assert!(matches!(
        send_gate(false, busy, "", true, q),
        SendGate::Go { commit: false, interrupt: false, .. }
    ));
    assert!(matches!(enter_gate(true, left, " ", false, q), SendGate::Nothing { commit: false }));
    assert!(matches!(enter_gate(true, idle, "x", false, q), SendGate::ChooseWorkspace));
    assert!(matches!(enter_gate(false, away, "x", false, q), SendGate::Stay));
    assert!(matches!(
        enter_gate(false, left, "x", false, q),
        SendGate::Go { commit: true, interrupt: false, .. }
    ));
    assert!(matches!(
        enter_gate(false, busy, "x", false, cut),
        SendGate::Go { commit: false, interrupt: true, .. }
    ));
    assert!(matches!(
        enter_gate(false, busy, "x", false, q),
        SendGate::Go { commit: false, interrupt: false, .. }
    ));
}

fn meta(id: &str, title: &str) -> SessionMeta {
    SessionMeta {
        id: id.to_string(),
        title: title.to_string(),
        time_label: String::new(),
        cwd: None,
        blank: true,
    }
}

#[test]
fn the_first_message_gives_the_title() {
    let mut metas = vec![meta("s", "新会话"), meta("t", "named")];
    assert_eq!(title_session(&mut metas, "s", ""), None);
    let long = "字".repeat(40);
    assert_eq!(title_session(&mut metas, "s", &long), Some("字".repeat(30)));
    assert_eq!(metas[0].title, "字".repeat(30));
    assert!(!metas[0].blank);
    assert_eq!(title_session(&mut metas, "s", "again"), None);
    assert_eq!(title_session(&mut metas, "t", "x"), None);
    assert_eq!(title_session(&mut metas, "none", "x"), None);
}

#[test]
fn commands_are_narrowed_by_what_is_typed() {
    assert_eq!(slash_query(false, "  /MoDEL x "), Some("model x".to_string()));
    assert_eq!(slash_query(false, "/Ä"), Some("ä".to_string()));
    assert_eq!(slash_query(true, "/model"), None);
    assert_eq!(slash_query(false, "model"), None);
    assert!(clears_draft(" /x") && !clears_draft("x/"));
    assert_eq!(
        command_rows(""),
        vec![
            CommandRow::Adding,
            CommandRow::Item(Command::File),
            CommandRow::Doing,
            CommandRow::Item(Command::Compact),
            CommandRow::Item(Command::Permission),
            CommandRow::Item(Command::Model),
            CommandRow::Item(Command::Export),
        ]
    );
    assert_eq!(command_rows("模型"), vec![CommandRow::Item(Command::Model)]);
    assert_eq!(
        command_rows("p"),
        vec![
            CommandRow::Item(Command::Compact),
            CommandRow::Item(Command::Permission),
            CommandRow::Item(Command::Export),
        ]
    );
    assert!(command_rows("zzz").is_empty());
    assert_eq!(Command::File.hint(), None);
    assert_eq!(Command::Export.label(), "下载日志");
}

#[test]
fn menus_open_and_close() {
    let mut m = Menus::new();
    m.toggle_command(true);
    assert!(!m.command);
    m.open_model();
    m.toggle_command(false);
    assert!(m.command && !m.model);
    assert!(m.shows_commands(false, false));
    assert!(!m.shows_commands(true, true));
    assert_eq!(m.choose_command(Command::Model), CommandAct::Nothing);
    assert!(m.model && !m.command);
    assert_eq!(m.choose_command(Command::File), CommandAct::PickFiles);
    m.toggle_permission(false);
    assert!(m.permission && !m.model);
}

#[test]
fn full_access_is_asked_about() {
    let mut m = Menus::new();
    assert!(!m.pick_permission("danger-full-access", "read-only"));
    assert!(m.confirm);
    assert!(!m.enable_full_access());
    m.toggle_acknowledged();
    assert!(m.enable_full_access());
    assert!(!m.confirm && !m.acknowledged);
    assert!(m.pick_permission("danger-full-access", "danger-full-access"));
    assert!(m.pick_permission("read-only", "danger-full-access"));
    m.confirm = true;
    m.cancel_full_access();
    assert!(!m.confirm);
}

#[test]
fn models_are_listed_under_their_providers() {
    let p = |id: &str, models: &[&str]| CustomProvider {
        id: id.to_string(),
        name: format!("name of {id}"),
        base_url: String::new(),
        api_key: String::new(),
        protocol: String::new(),
        models: models
            .iter()
            .map(|m| CustomModel {
                id: m.to_string(),
                display_name: String::new(),
                context_window: String::new(),
                max_tokens: String::new(),
            })
            .collect(),
    };
    let rows = model_rows(&vec![p("a", &["x", "y"]), p("b", &[]), p("c", &["x"])], "a", "x");
    assert_eq!(rows.len(), 5);
    assert!(matches!(&rows[0], ModelRow::Provider(n) if n == "name of a"));
    assert!(matches!(&rows[1], ModelRow::Model { selected: true, .. }));
    assert!(matches!(&rows[2], ModelRow::Model { selected: false, .. }));
    assert!(matches!(&rows[4], ModelRow::Model { selected: false, provider, .. } if provider == "c"));
}

#[test]
fn names_fall_back_to_a_word() {
    let metas = vec![meta("s", "title")];
    assert_eq!(session_title(&metas, "s"), "title");
    assert_eq!(session_title(&metas, "t"), "会话");
    assert_eq!(foreign_text(&metas, "s"), "「title」正在运行，本轮结束后可在此继续");
    let list = vec![WorkspaceInfo {
        id: "w".to_string(),
        title: "work".to_string(),
        path: "/w".to_string(),
        session_ids: Vec::new(),
    }];
    assert_eq!(workspace_label(&list, &Some("w".to_string())), "work");
    assert_eq!(workspace_label(&list, &None), "选择工作区");
    assert!(has_folder(&list, "/w") && !has_folder(&list, "/x"));
}

#[test]
fn the_shell_is_described() {
    let t = shell_section_text("/w", FsMode::ReadOnly, true);
    assert!(t.starts_with("Workspace root: /w\nThe shell tool runs each command through bash"));
    assert!(t.ends_with("do not run shell commands that change anything on disk."));
    let t = shell_section_text("", FsMode::DangerFullAccess, false);
    assert!(t.starts_with("The shell tool runs each command through `cmd /C` (NOT bash)"));
    assert!(t.contains("`E:\\dir\\file.rs`"));
    assert!(t.ends_with("\nPermission: full access — file operations are unrestricted."));
}

#[test]
fn events_of_a_hidden_session_stay_out() {
    let mut s = ViewSplit { agent_busy: true, peeking: true };
    let r = on_agent_event(&mut s, &AgentEvent::TextDelta { text: "x".to_string() });
    assert!(!r.refresh && !r.to_view && !r.commit);
    let r = on_agent_event(&mut s, &AgentEvent::TurnEnded { turn: 1, reason: TurnEndReason::Completed });
    assert!(r.refresh && !r.to_view && r.commit);
    assert!(!s.agent_busy);
    let mut s = ViewSplit::default();
    let r = on_agent_event(&mut s, &AgentEvent::TurnStarted { turn: 1 });
    assert!(r.refresh && r.to_view && !r.commit && s.agent_busy);
    let e = AgentEvent::Error { message: "m".to_string(), code: "c".to_string() };
    assert!(on_agent_event(&mut s, &e).refresh && !s.agent_busy);
}

#[test]
fn a_busy_agent_stays_where_it_is() {
    let mut s = ViewSplit { agent_busy: true, peeking: false };
    assert_eq!(switch_session(&mut s, "a", "b"), SessionSwitch::Peek);
    assert!(s.peeking && s.agent_busy);
    assert_eq!(switch_session(&mut s, "a", "a"), SessionSwitch::Resume);
    assert!(!s.peeking && s.agent_busy);
    let mut s = ViewSplit::default();
    assert_eq!(switch_session(&mut s, "a", "b"), SessionSwitch::Move);
    assert_eq!(s, ViewSplit::default());
}

#[test]
fn an_idle_view_shows_the_agents_session() {
    let mut s = ViewSplit::default();
    for e in [
        SplitEvent::TurnStart,
        SplitEvent::Look,
        SplitEvent::TurnEnd,
        SplitEvent::Look,
        SplitEvent::TurnStart,
        SplitEvent::Settle,
    ] {
        s = split_step(s, &e);
        assert!(s.agent_busy || !s.peeking);
    }
}

#[test]
fn the_program_starts_with_the_latest_session() {
    let ids = owned(&["a", "b"]);
    assert_eq!(startup_choice(&ids, &Vec::new(), 0), Startup::Resume(0));
    assert_eq!(startup_choice(&ids, &owned(&["a"]), 0), Startup::Resume(1));
    assert_eq!(startup_choice(&ids, &ids, 1), Startup::FirstWorkspace);
    assert_eq!(startup_choice(&Vec::new(), &ids, 0), Startup::Draft);
    assert_eq!(listed_title(Some(" ".to_string()), Some("n".to_string())), "n");
    assert_eq!(listed_title(Some("l".to_string()), Some("n".to_string())), "l");
    assert_eq!(listed_title(None, None), "新会话");
    assert!(is_dark(AppearanceMode::Dark, false));
    assert!(!is_dark(AppearanceMode::Light, true));
    assert!(is_dark(AppearanceMode::System, true));
}

#[test]
fn exports_are_named_and_reported() {
    assert!(is_log(Some("session.jsonl.zstd"), Some("zstd")));
    assert!(!is_log(Some("meta.zstd"), Some("zstd")));
    assert!(!is_log(Some("session.jsonl"), Some("jsonl")));
    assert!(!is_log(None, Some("zstd")));
    assert_eq!(export_name("s", "f"), "s-f");
    assert_eq!(
        export_message("/d", &vec![("/e/f".to_string(), 12), ("/e/g".to_string(), 1)], None),
        "已导出 2 个会话日志（/e/f，12 字节）"
    );
    assert_eq!(export_message("/d", &Vec::new(), None), "未找到可导出的会话日志（源 /d）");
    assert_eq!(
        export_message("/d", &Vec::new(), Some("f")),
        "未找到可导出的会话日志（源 /d，f: 写出失败）"
    );
}

#[test]
fn without_a_model_the_words_come_back() {
    let message = |source, text: &str| Message {
        role: MessageRole::User,
        content: vec![ContentBlock::Text { text: text.to_string() }],
        source,
    };
    let messages = vec![
        message(MessageSource::User, "first"),
        message(MessageSource::User, "last"),
        message(MessageSource::Tool, "tool"),
    ];
    assert_eq!(last_user_text(&messages), "last");
    assert_eq!(last_user_text(&Vec::new()), "");
    let reply = mock_reply("hi you");
    assert!(reply.starts_with("你刚才说的是：**hi you**。\n\n## "));
    let want: Vec<String> = reply.split_inclusive(' ').map(|w| w.to_string()).collect();
    assert_eq!(reply_pieces(&reply), want);
    assert_eq!(reply_pieces(&reply).concat(), reply);
    for s in ["", " ", "a", "a ", "  a b"] {
        let want: Vec<String> = s.split_inclusive(' ').map(|w| w.to_string()).collect();
        assert_eq!(reply_pieces(s), want);
    }
    assert_eq!(mock_thought(), "让我梳理一下要点，再组织回答…");
}
