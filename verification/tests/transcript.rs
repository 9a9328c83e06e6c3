use dsh::agent::AgentEvent;
use dsh::cards::{call_ordinal, tool_card, Card};
use dsh::chat::{ChatAttachment, ChatEntry, ChatView, MsgBlock, Role};
use dsh::details::{detail_of, message_sections, prose_lines, tool_sections, Detail};
use dsh::fold::{turn_process_folds, TranscriptView};
use dsh::ledger::{
    columns, has_failed, header_places, is_picked, rail_anchor, rail_items, rail_turns, row_gap,
    search_query, strip_lane, strip_ticks, strip_weight, total_height, traj_cells,
    traj_child_index, traj_collapsible_assistants, traj_visible_cells, Ledger, Picked,
    TurnRailItem,
};
use dsh::panels::{toggle_panel, turn_usage_rows, StatDialogKind};
use dsh::rows::{
    all_text, attachment_count, first_text, followed_line, sole_text, toggle_group,
    without_thoughts, ChatRow,
};
use dsh::session::{
    latest_tool_result_text, permission_glyph, pin_permission, preset_label, restore_permission, session_is_blank,
    switch_permission, ContentBlock, ContextSource, Failure, Message, MessageRole, MessageSource,
    ResultPart, Session, SessionEvent, TokenUsage, TurnEndReason,
};
use dsh::fs::FsMode;
use dsh::traj::{traj_layout, TrajCell, TrajKind, TrajRow};
use dsh::usage::TurnUsage;
use std::collections::HashSet;

fn user(text: &str) -> Message {
    Message {
        role: MessageRole::User,
        content: vec![ContentBlock::Text { text: text.to_string() }],
        source: MessageSource::User,
    }
}

fn answer(content: Vec<ContentBlock>) -> Message {
    Message {
        role: MessageRole::Assistant,
        content,
        source: MessageSource::Model { provider: "p".to_string(), model: "m".to_string() },
    }
}

fn text(s: &str) -> ContentBlock {
    ContentBlock::Text { text: s.to_string() }
}

fn usage(input: u64, output: u64) -> Option<TokenUsage> {
    Some(TokenUsage {
        input_tokens: input,
        output_tokens: output,
        cache_read_tokens: Some(1),
        cache_write_tokens: None,
        reasoning_tokens: Some(2),
    })
}

fn answered(usage: Option<TokenUsage>) -> AgentEvent {
    AgentEvent::AssistantMessage { message: answer(vec![text("done")]), usage }
}

fn result_message(call: &str, s: &str) -> Message {
    Message {
        role: MessageRole::Tool,
        content: vec![ContentBlock::ToolResult {
            tool_call_id: call.to_string(),
            content: vec![ResultPart::Text(s.to_string()), ResultPart::Other],
            is_error: Some(false),
        }],
        source: MessageSource::Tool,
    }
}

/// A turn of two steps: a tool call, then an answer.
fn two_steps() -> Session {
    let mut s = Session::new("s".to_string());
    s.append(SessionEvent::TurnStart { turn: 1 });
    s.append(SessionEvent::StepStart { turn: 1, step: 1, time_ms: Some(1000) });
    s.append(SessionEvent::UserMessage(user("hi")));
    s.append(SessionEvent::AssistantMessage {
        turn: 1,
        step: 1,
        message: answer(vec![
            ContentBlock::Reasoning { text: "think".to_string() },
            ContentBlock::ToolCall {
                id: "c".to_string(),
                name: "fs".to_string(),
                arguments: r#"{"op":"read","path":"a"}"#.to_string(),
            },
        ]),
        interrupted: false,
        usage: usage(10, 5),
        time_ms: Some(1400),
    });
    s.append(SessionEvent::ToolCall {
        turn: 1,
        step: 1,
        call_id: "c".to_string(),
        name: "fs".to_string(),
        arguments: "{}".to_string(),
    });
    s.append(SessionEvent::ToolResult {
        turn: 1,
        step: 1,
        message: result_message("c", "content"),
        time_ms: Some(1450),
        presentation: None,
    });
    s.append(SessionEvent::StepEnd { turn: 1, step: 1 });
    s.append(SessionEvent::StepStart { turn: 1, step: 2, time_ms: Some(1500) });
    s.append(SessionEvent::AssistantMessage {
        turn: 1,
        step: 2,
        message: answer(vec![text("done")]),
        interrupted: false,
        usage: usage(20, 7),
        time_ms: Some(1900),
    });
    s.append(SessionEvent::StepEnd { turn: 1, step: 2 });
    s.append(SessionEvent::TurnEnd { turn: 1, reason: TurnEndReason::Completed });
    s
}

fn view() -> ChatView {
    ChatView::new("p/m".to_string(), None)
}

#[test]
fn a_log_is_shown_from_the_start() {
    let mut v = view();
    v.rebuild_from(&two_steps());
    assert_eq!(v.entries.len(), 3);
    assert_eq!(v.entries[0].role, Role::User);
    assert_eq!(v.entries[1].role, Role::Assistant);
    assert_eq!(v.entries[1].step, Some(1));
    assert_eq!(v.entries[1].step_duration_ms, Some(400));
    assert_eq!(v.entries[2].step_duration_ms, Some(400));
    match &v.entries[1].blocks[1] {
        MsgBlock::Tool(t) => {
            assert_eq!(t.result.as_deref(), Some("content"));
            assert_eq!(t.duration_ms, Some(50));
            assert!(!t.error);
        }
        _ => panic!("a tool call was expected"),
    }
    assert_eq!(v.counts.turns, 1);
    assert_eq!(v.counts.steps, 2);
    assert_eq!(v.counts.tools, 2);
    assert_eq!((v.counts.input_tokens, v.counts.output_tokens), (30, 12));
    assert_eq!((v.counts.cache_read, v.counts.cache_write), (2, 0));
    assert_eq!(v.ui_turn, 1);
    assert_eq!(v.unfinished_turn, None);
    assert_eq!(v.items, 3);
}

#[test]
fn events_show_what_the_log_will() {
    let log = two_steps();
    let mut v = view();
    v.push_user_entry_with(Some("hi".to_string()), Vec::new());
    let mut at = 1_000_000_000u64;
    let mut feed = |v: &mut ChatView, e: AgentEvent| {
        at += 10_000_000;
        v.apply_event(&e, &log, at, 5000).0
    };
    assert!(feed(&mut v, AgentEvent::TurnStarted { turn: 1 }));
    assert!(v.running);
    assert_eq!(v.entries[0].turn, 1);
    assert!(!feed(&mut v, AgentEvent::ReasoningDelta { text: "thi".to_string() }));
    feed(&mut v, AgentEvent::ReasoningDelta { text: "nk".to_string() });
    feed(
        &mut v,
        AgentEvent::ToolCall {
            tool_call_id: "c".to_string(),
            name: "fs".to_string(),
            arguments: r#"{"op":"read","path":"a"}"#.to_string(),
        },
    );
    feed(&mut v, AgentEvent::ToolResult { tool_call_id: "c".to_string(), is_error: false });
    assert!(feed(&mut v, answered(usage(10, 5))));
    feed(&mut v, AgentEvent::TextDelta { text: "done".to_string() });
    feed(&mut v, answered(usage(20, 7)));
    assert!(feed(&mut v, AgentEvent::TurnEnded { turn: 1, reason: TurnEndReason::Completed }));
    assert!(!v.running);
    assert_eq!(v.entries.len(), 3);
    match &v.entries[1].blocks[1] {
        MsgBlock::Tool(t) => {
            assert_eq!(t.result.as_deref(), Some("content"));
            assert_eq!(t.duration_ms, Some(10));
        }
        _ => panic!("a tool call was expected"),
    }
    assert!(matches!(&v.entries[1].blocks[0], MsgBlock::Reasoning { text, .. } if text == "think"));
    assert_eq!(v.entries[2].step, Some(2));
    assert_eq!(v.entries[2].usage.as_ref().unwrap().input_tokens, 20);
    assert_eq!(v.entries[2].ended_at_ms, Some(5000));
    assert_eq!(v.counts.steps, 2);
    let s = v.session_stats();
    assert_eq!((s.turns, s.steps), (1, 2));
    assert_eq!(s.tool_ms, 10);
    assert_eq!(s.llm_ms, 70);
    assert_eq!(s.ttft_avg_ms, Some(10));
    assert_eq!(s.decoded, Some((12, 60)));
    assert_eq!(s.total(), 42);
    assert!(s.has_tokens() && s.is_shown() && s.is_timed());
    assert_eq!(s.counts_text(), "1 轮 2 步");
}

#[test]
fn failed_turns_stay_visible() {
    let mut s = Session::new("s".to_string());
    s.append(SessionEvent::TurnStart { turn: 1 });
    s.append(SessionEvent::TurnEnd {
        turn: 1,
        reason: TurnEndReason::Error(Failure {
            code: "402".to_string(),
            message: "no money".to_string(),
        }),
    });
    let mut v = view();
    v.rebuild_from(&s);
    assert_eq!(v.entries[0].role, Role::Error);
    assert_eq!(first_text(&v.entries[0].blocks), "[402] no money");
}

#[test]
fn an_open_turn_is_joined() {
    let mut s = Session::new("s".to_string());
    s.append(SessionEvent::TurnStart { turn: 3 });
    s.append(SessionEvent::StepStart { turn: 3, step: 1, time_ms: Some(4000) });
    let mut v = view();
    v.rebuild_from(&s);
    assert_eq!(v.unfinished_turn, Some(3));
    assert_eq!(v.turn_anchor_ms, Some(4000));
    v.resume_running(9_000_000_000, 5000);
    assert!(v.running);
    assert_eq!(v.turn_open, Some(3));
    assert_eq!(v.turn_started, Some(8_000_000_000));
}

#[test]
fn context_and_attachments_are_told_apart() {
    let mut s = Session::new("s".to_string());
    s.append(SessionEvent::UserMessage(Message {
        role: MessageRole::User,
        content: vec![text("injected")],
        source: MessageSource::Context(ContextSource {
            kind: "session-reference".to_string(),
            plugin: None,
            summary: Some(" sum ".to_string()),
            changes_paths: Vec::new(),
            reference_labels: vec!["a".to_string(), "b".to_string()],
            name: None,
        }),
    }));
    s.append(SessionEvent::UserMessage(Message {
        role: MessageRole::User,
        content: vec![
            ContentBlock::File {
                name: "f".to_string(),
                bytes: 3,
                attachment_id: "sha256:x".to_string(),
            },
            text("look"),
        ],
        source: MessageSource::User,
    }));
    s.append(SessionEvent::UserMessage(user("")));
    let mut v = view();
    v.rebuild_from(&s);
    assert_eq!(v.entries.len(), 2);
    let info = v.entries[0].context.as_ref().unwrap();
    assert_eq!(info.title, "跨会话召回");
    assert_eq!(info.label.as_deref(), Some("a, b"));
    assert_eq!(info.summary.as_deref(), Some("sum"));
    assert_eq!(attachment_count(&v.entries[1].blocks), 1);
    assert_eq!(all_text(&v.entries[1].blocks), "look");
}

#[test]
fn a_finished_turn_is_folded_up_to_its_answer() {
    let mut v = view();
    v.rebuild_from(&two_steps());
    let none = turn_process_folds(&v.entries, v.turn_open, TranscriptView::Normal);
    assert!(none.is_empty());
    let open = turn_process_folds(&v.entries, Some(1), TranscriptView::Compact);
    assert!(open.is_empty());
    let folds = turn_process_folds(&v.entries, v.turn_open, TranscriptView::Compact);
    let f = &folds[&1];
    assert_eq!((f.first_process, f.answer, f.tools), (1, 2, 1));
    assert!(matches!(v.chat_row(&folds, 0), ChatRow::Entry));
    assert!(matches!(v.chat_row(&folds, 1), ChatRow::Control { expanded: false, .. }));
    assert!(matches!(v.chat_row(&folds, 2), ChatRow::Answer));
    v.toggle_turn(1);
    assert!(matches!(v.chat_row(&folds, 1), ChatRow::Control { expanded: true, .. }));
    v.toggle_turn(1);
    assert!(matches!(v.chat_row(&folds, 1), ChatRow::Control { expanded: false, .. }));
}

#[test]
fn parts_open_and_close() {
    let mut v = view();
    v.rebuild_from(&two_steps());
    v.toggle_reasoning(1, 0);
    assert!(matches!(&v.entries[1].blocks[0], MsgBlock::Reasoning { open: true, .. }));
    v.toggle_reasoning(1, 0);
    assert!(matches!(&v.entries[1].blocks[0], MsgBlock::Reasoning { open: false, .. }));
    v.toggle_tool(1, 1);
    assert!(matches!(&v.entries[1].blocks[1], MsgBlock::Tool(t) if t.open));
    v.toggle_tool(9, 9);
    v.toggle_entry(0);
    assert!(v.entries[0].open);
    let mut groups = vec![2, 5];
    toggle_group(&mut groups, 3);
    assert_eq!(groups, vec![2, 3, 5]);
    toggle_group(&mut groups, 3);
    assert_eq!(groups, vec![2, 5]);
    assert!(v.latest_user(0));
}

#[test]
fn a_streaming_thought_shows_its_last_line() {
    assert_eq!(followed_line("a\nb"), "b");
    assert_eq!(followed_line("a\nb\r\n"), "b");
    assert_eq!(followed_line("a\n\n"), "");
    let long = format!("x{}", "y".repeat(120));
    assert_eq!(followed_line(&long), "y".repeat(120));
}

#[test]
fn streaming_rows_are_measured_again() {
    let mut v = view();
    v.rebuild_from(&two_steps());
    assert_eq!(v.invalidate_stream_tail(), Some((2, 3)));
    assert!(!v.is_stream_tail(2, 0));
    v.running = true;
    assert!(v.is_stream_tail(2, 0));
    assert!(!v.is_stream_tail(1, 1));
    assert_eq!(v.invalidate_stream_tail(), Some((2, 4)));
    assert_eq!(v.toggle_card(1, 1), Some((1, 2)));
    assert!(matches!(&v.entries[1].blocks[1], MsgBlock::Tool(t) if t.expanded));
    assert_eq!(without_thoughts(&v.entries[1].blocks), vec![1]);
    assert_eq!(sole_text(&v.entries[2].blocks), "done");
    assert_eq!(sole_text(&v.entries[1].blocks), "");
    assert_eq!(v.status_time(5_000_000_000), None);
    v.turn_started = Some(2_000_000_000);
    assert_eq!(v.status_time(5_900_000_000).as_deref(), Some("3秒"));
    assert_eq!(v.status_time(1).as_deref(), Some("0秒"));
}

#[test]
fn the_strip_and_the_rows_are_measured() {
    let cells = some_cells();
    let calls = traj_collapsible_assistants(&cells);
    assert_eq!(calls.into_iter().collect::<Vec<usize>>(), vec![2]);
    let (rows, tops) = traj_layout(&cells, &HashSet::new(), &HashSet::new());
    assert_eq!(traj_child_index(&cells, &rows, 0), 5);
    assert_eq!(traj_child_index(&cells, &rows, 7), 2);
    assert_eq!(header_places(&rows, &tops), vec![(1, 0), (2, 300)]);
    assert_eq!(total_height(&rows, &tops), 398 + 38 + 22);
    assert_eq!(total_height(&[], &[]), 0);
    assert_eq!((row_gap(&rows, 4), row_gap(&rows, 5), row_gap(&rows, 8)), (10, 22, 22));
    assert_eq!(strip_lane(TrajKind::User), 0);
    assert_eq!(strip_lane(TrajKind::Message), 1);
    assert_eq!(strip_lane(TrajKind::Tool), 2);
    assert_eq!((strip_weight(&cells[0]), strip_weight(&cells[1])), (1, 1200));
    assert_eq!(strip_ticks(&cells), vec![0, 3]);
    let mut l = Ledger::new();
    l.toggle_duration();
    assert!(l.actual);
    l.toggle_all_calls(&cells);
    assert!(l.collapsed_assistants.contains(&2));
    l.expand_calls(2);
    assert!(l.collapsed_assistants.is_empty());
}

#[test]
fn a_cell_is_picked_by_its_call_or_its_number() {
    let mut v = view();
    v.rebuild_from(&two_steps());
    let mut cells = traj_cells(&v.entries, &vec![String::new()]);
    let call = Picked {
        name: "fs".to_string(),
        arguments: r#"{"op":"read","path":"a"}"#.to_string(),
    };
    assert!(is_picked(&cells[2], &Some(call), None));
    assert!(!is_picked(&cells[2], &None, None));
    assert!(is_picked(&cells[3], &None, Some(4)));
    assert!(!is_picked(&cells[3], &None, Some(3)));
    assert!(!has_failed(&cells[2]));
    cells[2].tool.as_mut().unwrap().error = true;
    assert!(has_failed(&cells[2]));
    assert!(!has_failed(&cells[0]));
}

#[test]
fn the_ledger_numbers_its_cells() {
    let mut v = view();
    v.rebuild_from(&two_steps());
    let cells = traj_cells(&v.entries, &vec!["read a".to_string()]);
    assert_eq!(cells.len(), 4);
    for (i, c) in cells.iter().enumerate() {
        assert_eq!(c.index, i + 1);
    }
    assert!(cells[0].kind == TrajKind::User);
    assert!(cells[1].kind == TrajKind::Message);
    assert_eq!((cells[1].text.as_str(), cells[1].dim), ("think", false));
    assert!(cells[2].kind == TrajKind::Tool);
    assert_eq!(cells[2].text, "read a");
    assert_eq!(cells[3].text, "done");
    assert_eq!(cells[3].metrics, Some((20, 7, Some(2))));
    assert_eq!(cells[1].reasoning.as_deref(), Some("think"));
    assert_eq!(columns(&cells[0]).len(), columns(&cells[3]).len());
    assert_eq!(search_query(" DoNe "), "done");
    let shown = traj_visible_cells(cells, "done");
    assert_eq!(shown.len(), 1);
}

fn cell(turn: u64, kind: TrajKind, index: usize, step: Option<u64>, time: Option<u64>) -> TrajCell {
    TrajCell {
        turn,
        kind,
        index,
        text: format!("t{index}"),
        dim: false,
        step,
        detail_text: String::new(),
        reasoning: None,
        metrics: None,
        time_ms: time,
        tool: None,
    }
}

fn some_cells() -> Vec<TrajCell> {
    vec![
        cell(1, TrajKind::User, 1, None, None),
        cell(1, TrajKind::Message, 2, Some(1), Some(1200)),
        cell(1, TrajKind::Tool, 3, None, Some(34)),
        cell(2, TrajKind::User, 4, None, None),
    ]
}

fn shown(rows: &[TrajRow]) -> Vec<String> {
    rows.iter()
        .map(|r| match r {
            TrajRow::Header(t) => format!("header {t}"),
            TrajRow::Cell(i) => format!("cell {i}"),
            TrajRow::Group(a, b) => format!("group {a} {b}"),
            TrajRow::TurnSummary(t, s) => format!("turn {t} {s}"),
            TrajRow::AssistantSummary(i, s) => format!("calls {i} {s}"),
        })
        .collect()
}

#[test]
fn rows_follow_one_another() {
    let (rows, tops) = traj_layout(&some_cells(), &HashSet::new(), &HashSet::new());
    assert_eq!(
        shown(&rows),
        vec![
            "header 1", "group 消息 ", "cell 0", "group 步骤 1 1,234 毫秒", "cell 1", "cell 2",
            "header 2", "group 消息 ", "cell 3",
        ]
    );
    assert_eq!(tops, vec![0, 52, 98, 146, 192, 240, 300, 352, 398]);
}

#[test]
fn folded_turns_and_calls_become_one_row() {
    let folded: HashSet<u64> = [1, 2].into_iter().collect();
    let (rows, tops) = traj_layout(&some_cells(), &folded, &HashSet::new());
    let mut slow = some_cells();
    for c in &mut slow {
        if folded.contains(&c.turn) {
            c.time_ms = Some(u64::MAX);
        }
    }
    assert_eq!(traj_layout(&slow, &folded, &HashSet::new()).1, tops);
    assert_eq!(
        shown(&rows),
        vec!["header 1", "turn 1 t1", "header 2", "group 消息 ", "cell 3"]
    );
    assert_eq!(tops, vec![0, 52, 94, 146, 192]);
    let calls: HashSet<usize> = [2].into_iter().collect();
    let (rows, _) = traj_layout(&some_cells(), &HashSet::new(), &calls);
    assert_eq!(
        shown(&rows),
        vec![
            "header 1", "group 消息 ", "cell 0", "group 步骤 1 1,234 毫秒", "calls 2 t2",
            "header 2", "group 消息 ", "cell 3",
        ]
    );
}

#[test]
fn a_folded_message_without_a_step_is_one_summary() {
    let cells = vec![
        cell(1, TrajKind::Message, 1, None, None),
        cell(1, TrajKind::Tool, 2, None, None),
        cell(1, TrajKind::Tool, 3, None, None),
        cell(1, TrajKind::User, 4, None, None),
        cell(2, TrajKind::Tool, 5, None, None),
    ];
    let calls: HashSet<usize> = [1].into_iter().collect();
    let (rows, tops) = traj_layout(&cells[..2], &HashSet::new(), &calls);
    assert_eq!(shown(&rows), vec!["header 1", "group 消息 ", "calls 1 t1"]);
    assert_eq!(tops, vec![0, 52, 98]);
    let (rows, _) = traj_layout(&cells, &HashSet::new(), &calls);
    assert_eq!(
        shown(&rows),
        vec![
            "header 1", "group 消息 ", "calls 1 t1", "group 消息 ", "cell 3", "header 2",
            "group 消息 ", "cell 4",
        ]
    );
}

#[test]
fn folding_other_turns_changes_nothing() {
    let none = HashSet::new();
    let plain = traj_layout(&some_cells(), &none, &HashSet::new());
    let other: HashSet<u64> = [2, 7].into_iter().collect();
    let same = traj_layout(&some_cells(), &other, &HashSet::new());
    assert_eq!(shown(&plain.0), shown(&same.0));
    assert_eq!(plain.1, same.1);
}

#[test]
fn folding_all_is_undone() {
    let cells = some_cells();
    let mut l = Ledger::new();
    assert!(!l.all_turns_collapsed(&cells));
    l.toggle_all_turns(&cells);
    assert!(l.all_turns_collapsed(&cells));
    l.toggle_all_turns(&cells);
    assert!(l.collapsed_turns.is_empty());
    l.toggle_turn(&cells, 1);
    assert!(l.collapsed_turns.contains(&1));
    l.expand_turn(1);
    assert!(l.collapsed_turns.is_empty());
    l.toggle_all_calls(&cells);
    assert!(l.all_calls_collapsed(&cells));
}

fn mark(turn: u64, prompt: &str, anchor: Option<usize>) -> TurnRailItem {
    TurnRailItem {
        turn,
        prompt: prompt.to_string(),
        response: String::new(),
        anchor_ix: anchor,
    }
}

#[test]
fn the_rail_is_in_order() {
    let items = rail_items(
        vec![mark(3, "c", Some(5)), mark(1, "", Some(0))],
        vec![mark(2, "b", None), mark(1, "a", None)],
    );
    let turns: Vec<u64> = items.iter().map(|i| i.turn).collect();
    assert_eq!(turns, vec![1, 2, 3]);
    assert_eq!(items[0].prompt, "a");
    assert_eq!(items[0].anchor_ix, Some(0));
    let mut v = view();
    v.rebuild_from(&two_steps());
    let rail = rail_turns(&v.entries);
    assert_eq!(rail.len(), 1);
    assert_eq!((rail[0].turn, rail[0].user_ix), (1, Some(0)));
    assert_eq!(rail_anchor(&rail[0]), 0);
    let mut later = rail[0];
    later.user_ix = None;
    later.first_ix = 4;
    assert_eq!(rail_anchor(&later), 4);
}

#[test]
fn calls_get_their_cards() {
    let mut v = view();
    v.rebuild_from(&two_steps());
    match &v.entries[1].blocks[1] {
        MsgBlock::Tool(t) => {
            assert!(matches!(tool_card(t), Card::Read { path } if path == "a"));
            let mut shell = t.clone();
            shell.name = "shell".to_string();
            shell.arguments = r#"{"command":"ls"}"#.to_string();
            assert!(matches!(tool_card(&shell), Card::Terminal { command } if command == "ls"));
            shell.name = "mystery".to_string();
            assert!(matches!(tool_card(&shell), Card::Plain { .. }));
        }
        _ => panic!("a tool call was expected"),
    }
    assert_eq!(call_ordinal(&v.entries, 1, 1), 0);
    assert_eq!(call_ordinal(&v.entries, 2, 0), 1);
}

#[test]
fn details_show_a_cell() {
    let mut v = view();
    v.rebuild_from(&two_steps());
    let cells = traj_cells(&v.entries, &vec!["read a".to_string()]);
    match detail_of(&cells[3]) {
        Detail::Message(m) => {
            let s = message_sections(&m);
            let parts: Vec<(&str, &str)> =
                s.iter().map(|p| (p.title, p.text.as_str())).collect();
            assert_eq!(
                parts,
                vec![
                    ("种类", "消息 · 第 1 轮 · #4"),
                    ("内容", "done"),
                    ("Token 用量", "输入 20 · 输出 7 · 思考 2"),
                ]
            );
        }
        _ => panic!("a message was expected"),
    }
    match detail_of(&cells[1]) {
        Detail::Message(m) => {
            let s = message_sections(&m);
            assert_eq!((s[1].title, s[1].text.as_str()), ("思考", "think"));
            assert_eq!((s[2].text.as_str(), s[2].dim), ("（仅工具调用）", true));
        }
        _ => panic!("a message was expected"),
    }
    match detail_of(&cells[2]) {
        Detail::Tool(t) => {
            let s = tool_sections(&t, "a".to_string());
            assert_eq!((s[0].title, s[0].text.as_str()), ("工具", "fs"));
            assert_eq!((s[1].text.as_str(), s[2].text.as_str()), ("a", "content"));
            assert!(!s[2].failed);
            let mut failed = t.clone();
            failed.error = true;
            assert!(tool_sections(&failed, String::new())[2].failed);
            failed.result = None;
            let s = tool_sections(&failed, String::new());
            assert_eq!((s[2].text.as_str(), s[2].dim, s[2].failed), ("（运行中…）", true, false));
        }
        _ => panic!("a tool call was expected"),
    }
    assert_eq!(prose_lines("a\n\nb"), vec!["a", "\u{00A0}", "b"]);
}

#[test]
fn panels_list_the_figures() {
    let u = TurnUsage {
        input_tokens: 1000,
        output_tokens: 50,
        cache_read: Some(400),
        cache_write: None,
        reasoning: None,
        run_ms: 0,
        llm_ms: 0,
        ttft_ms: None,
        route: "p/m".to_string(),
    };
    let rows = turn_usage_rows(&u, Some("40".to_string()));
    let pairs: Vec<(&str, &str)> = rows.iter().map(|(a, b)| (a.as_str(), b.as_str())).collect();
    assert_eq!(
        pairs,
        vec![
            ("提供方 / 模型", "p/m"),
            ("缓存命中", "40%"),
            ("未缓存输入", "600 tok"),
            ("缓存读取", "400 tok"),
            ("输出", "50 tok"),
        ]
    );
    assert_eq!(toggle_panel(None, StatDialogKind::Gauge), Some(StatDialogKind::Gauge));
    assert_eq!(toggle_panel(Some(StatDialogKind::Gauge), StatDialogKind::Gauge), None);
    assert_eq!(
        toggle_panel(Some(StatDialogKind::Gauge), StatDialogKind::Usage),
        Some(StatDialogKind::Usage)
    );
    let mut v = view();
    v.rebuild_from(&two_steps());
    let (total, rows) = v.session_stats().panel(StatDialogKind::Usage, None, Some("6".to_string()));
    assert_eq!(total.as_deref(), Some("42"));
    assert_eq!(rows[0], ("缓存命中".to_string(), "6%".to_string()));
    assert_eq!(rows[1], ("输入".to_string(), "28".to_string()));
    assert_eq!(rows.len(), 4);
}

#[test]
fn permissions_are_restored_from_the_log() {
    let mut s = Session::new("s".to_string());
    assert!(session_is_blank(&s));
    let p = restore_permission(&s, "read-only");
    assert_eq!((p.preset.as_str(), p.approval.as_str(), p.mode), ("read-only", "ask", FsMode::ReadOnly));
    for e in pin_permission("danger-full-access") {
        s.append(e);
    }
    assert_eq!(s.entries.len(), 3);
    let mut p = restore_permission(&s, "read-only");
    assert_eq!((p.preset.as_str(), p.approval.as_str()), ("danger-full-access", "never"));
    assert_eq!(p.mode, FsMode::DangerFullAccess);
    assert!(session_is_blank(&s));
    let switched = switch_permission(&mut p, FsMode::DangerFullAccess, "workspace-write").unwrap();
    assert!(!switched.events.is_empty());
    assert_eq!(p.preset, "workspace-write");
    assert_eq!(preset_label("read-only"), "仅可查看");
    assert_eq!(permission_glyph("read-only"), "icons/permission-readonly.svg");
    assert_eq!(permission_glyph("danger-full-access"), "icons/permission-full.svg");
    assert_eq!(permission_glyph("nonsense"), "icons/permission-workspace.svg");
}

#[test]
fn the_latest_result_of_a_call_counts() {
    let s = two_steps();
    assert_eq!(latest_tool_result_text(&s, "c"), ("content".to_string(), false));
    assert_eq!(latest_tool_result_text(&s, "d"), (String::new(), false));
    assert!(!session_is_blank(&s));
}

#[test]
fn messages_keep_their_attachments() {
    let mut v = view();
    let sync = v.push_user_entry_with(
        None,
        vec![ChatAttachment::FileCard { name: "f".to_string(), bytes: 1 }],
    );
    assert_eq!((sync.insert, sync.scroll_to), (Some((0, 1)), Some(1)));
    let e: &ChatEntry = &v.entries[0];
    assert_eq!(e.role, Role::User);
    assert_eq!(e.blocks.len(), 1);
    v.reset_empty();
    assert!(v.entries.is_empty());
}
