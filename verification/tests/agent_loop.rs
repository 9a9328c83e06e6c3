use dsh::agent::{
    assemble_prompt, bound_summary, chunk_event, model_switch_notice_message, route_label,
    pair_safe_boundary, should_compact, may_compact_now, system_prompt_message, tool_answer,
    uuid_simple, AgentEvent, AgentOptions, AgentStatus, FinishReason, GenerateOptions, InboxTarget,
    PreStepDecision, PromptAssembly, StepEnd, ToolAnswer, TurnPhase,
};
use dsh::boundary::{turn_boundary_projection_definition, StepBoundaryKind};
use dsh::driver::{ReactLoopAgent, Settled, ToolRound};
use dsh::session::{
    message_text, ContentBlock, Failure, HeaderReason, Message, MessageRole, MessageSource,
    ResultPart, Session, SessionEvent, StreamChunk, TokenUsage, ToolSchema, TurnEndReason,
};

#[test]
fn route_label_shows_model_only_for_same_provider() {
    assert_eq!(route_label("p", "m1", "p"), "m1");
    assert_eq!(route_label("p1", "m", "p2"), "p1/m");
}

#[test]
fn model_switch_notice_matches_upstream_template() {
    let m = model_switch_notice_message(
        ("deepseek-official", "deepseek-v4-flash"),
        ("deepseek-official", "deepseek-v4-pro"),
    );
    assert_eq!(m.role, MessageRole::User);
    match &m.source {
        MessageSource::Plugin { plugin, form, summary, sections } => {
            assert_eq!(plugin, "model-selection");
            assert_eq!(form.as_deref(), Some("notice"));
            assert_eq!(summary.as_deref(), Some("deepseek-v4-flash → deepseek-v4-pro"));
            assert!(sections.is_none());
        }
        other => panic!("plugin source expected, got {other:?}"),
    }
    match &m.content[0] {
        ContentBlock::Text { text } => assert_eq!(
            text,
            "[model changed: assistant turns above this point were generated by deepseek-v4-flash; the session continues with deepseek-v4-pro]",
        ),
        other => panic!("text block expected, got {other:?}"),
    }
}

fn options() -> AgentOptions {
    AgentOptions {
        provider: "p".to_string(),
        model: "m".to_string(),
        max_tokens: None,
        system_prompt: Some("base".to_string()),
        threshold_tokens: 60000,
        keep_recent: 6,
        workdir: None,
        attachments_root: None,
    }
}

fn schema(parameters: &str) -> ToolSchema {
    ToolSchema {
        name: "fs".to_string(),
        description: "files".to_string(),
        parameters: parameters.to_string(),
    }
}

fn assembly(system: &str) -> PromptAssembly {
    PromptAssembly { system: system.to_string(), tools: vec![schema("{}")] }
}

/// Makes a request as the options propose it.
fn request(a: &mut ReactLoopAgent) -> GenerateOptions {
    let config = a.proposed_config();
    a.build_request(config, &assembly("prompt"))
}

/// The kinds of the entries of a log, in order.
fn kinds(s: &Session) -> Vec<&'static str> {
    s.entries
        .iter()
        .map(|e| match &e.event {
            SessionEvent::TurnStart { .. } => "turn-start",
            SessionEvent::TurnEnd { .. } => "turn-end",
            SessionEvent::StepStart { .. } => "step-start",
            SessionEvent::StepEnd { .. } => "step-end",
            SessionEvent::UserMessage(_) => "user",
            SessionEvent::SystemMessage { .. } => "system",
            SessionEvent::AssistantChunk { .. } => "chunk",
            SessionEvent::AssistantMessage { .. } => "assistant",
            SessionEvent::ToolCall { .. } => "call",
            SessionEvent::ToolResult { .. } => "result",
            SessionEvent::RequestHeader { .. } => "header",
            SessionEvent::Compaction(_) => "summary",
            _ => "other",
        })
        .collect()
}

fn claim(a: &mut ReactLoopAgent, target: InboxTarget) -> Vec<Message> {
    match target {
        InboxTarget::NextTurn => a.inbox.next_turn.drain(..).collect(),
        InboxTarget::NextStep => a.inbox.next_step.drain(..).collect(),
    }
}

#[test]
fn a_turn_with_a_tool_call_is_logged_in_order() {
    let mut a = ReactLoopAgent::new("s".to_string(), options());
    a.followup("hi".to_string());
    assert!(a.wake());
    assert!(a.has_work());
    assert!(matches!(a.start_turn(), AgentEvent::TurnStarted { turn: 1 }));
    assert_eq!(a.head(), Some(InboxTarget::NextTurn));
    let messages = claim(&mut a, InboxTarget::NextTurn);
    assert!(a.enter_step(PreStepDecision::Enter { messages }, "prompt"));
    request(&mut a);
    assert!(matches!(
        a.chunk(StreamChunk::TextDelta("x".to_string())),
        Some(AgentEvent::TextDelta { .. })
    ));
    let call = ContentBlock::ToolCall {
        id: "c".to_string(),
        name: "fs".to_string(),
        arguments: "{}".to_string(),
    };
    let calls = match a.settle(FinishReason::Stop, false, Ok(vec![call]), "p", "m", None) {
        Settled::Tools { calls, .. } => calls,
        _ => panic!("tools were expected"),
    };
    assert!(matches!(a.call_tool(&calls[0]), AgentEvent::ToolCall { .. }));
    let (seen, concluded) = a.tool_answered(&calls[0], None);
    assert!(matches!(seen, AgentEvent::ToolResult { is_error: true, .. }));
    assert!(!concluded);
    assert!(!a.finish_step(StepEnd::NeedsAnotherStep));
    assert_eq!(a.head(), Some(InboxTarget::NextStep));
    assert!(a.enter_step(PreStepDecision::Enter { messages: Vec::new() }, "prompt"));
    request(&mut a);
    let text = ContentBlock::Text { text: "done".to_string() };
    let end = match a.settle(FinishReason::Stop, false, Ok(vec![text]), "p", "m", None) {
        Settled::Done { seen: AgentEvent::AssistantMessage { message, usage: None }, end } => {
            assert_eq!(message_text(&message), "done");
            assert!(matches!(message.role, MessageRole::Assistant));
            match &message.source {
                MessageSource::Model { provider, model } => {
                    assert_eq!((provider.as_str(), model.as_str()), ("p", "m"));
                }
                _ => panic!("an answer of the model was expected"),
            }
            end
        }
        _ => panic!("an end was expected"),
    };
    assert!(a.finish_step(end));
    assert!(matches!(
        a.end_turn(),
        AgentEvent::TurnEnded { turn: 1, reason: TurnEndReason::Completed }
    ));
    assert!(a.turn.is_none());
    assert!(a.rest());
    assert_eq!(
        kinds(&a.session),
        vec![
            "turn-start", "step-start", "system", "user", "header", "chunk", "assistant", "call",
            "result", "step-end", "step-start", "assistant", "step-end", "turn-end",
        ]
    );
    for (i, e) in a.session.entries.iter().enumerate() {
        assert_eq!(e.seq, i as u64);
    }
    let b = turn_boundary_projection_definition().fold(&a.session.entries);
    assert_eq!(b.open_turn_start_seq, None);
    assert_eq!(b.last_turn, 1);
    assert_eq!(b.last_step_start_seq, Some(10));
    assert_eq!(b.last_step_boundary.unwrap().kind, StepBoundaryKind::End);
    assert_eq!(b.last_step_boundary.unwrap().seq, 12);
}

#[test]
fn another_model_and_prompt_are_announced() {
    let mut a = ReactLoopAgent::new("s".to_string(), options());
    for prompt in ["one", "two"] {
        a.followup("hi".to_string());
        a.start_turn();
        a.head();
        let messages = claim(&mut a, InboxTarget::NextTurn);
        assert!(a.enter_step(PreStepDecision::Enter { messages }, prompt));
        let model = a.options.model.clone();
        request(&mut a);
        let end = match a.settle(FinishReason::Stop, false, Ok(Vec::new()), "p", &model, None) {
            Settled::Done { end, .. } => end,
            _ => panic!("an end was expected"),
        };
        a.finish_step(end);
        a.end_turn();
        a.options.set_provider_and_model("p".to_string(), "n".to_string());
    }
    assert_eq!(
        kinds(&a.session),
        vec![
            "turn-start", "step-start", "system", "user", "header", "assistant", "step-end",
            "turn-end", "turn-start", "step-start", "system", "user", "user", "header",
            "assistant", "step-end", "turn-end",
        ]
    );
    match &a.session.entries[10].event {
        SessionEvent::SystemMessage { turn, step, replace, .. } => {
            assert_eq!((*turn, *step, *replace), (2, 1, Some(2)));
        }
        _ => panic!("a system message was expected"),
    }
    match &a.session.entries[12].event {
        SessionEvent::UserMessage(m) => assert_eq!(
            message_text(m),
            "[model changed: assistant turns above this point were generated by m; the session continues with n]"
        ),
        _ => panic!("a user message was expected"),
    }
    match &a.session.entries[13].event {
        SessionEvent::RequestHeader { reason, .. } => assert_eq!(*reason, HeaderReason::Change),
        _ => panic!("a header was expected"),
    }
    assert_eq!(a.system_head.as_ref().unwrap().0, 10);
    assert_eq!(a.system_head.as_ref().unwrap().1, "two");
}

#[test]
fn a_step_without_input_announces_nothing() {
    let mut a = in_step();
    request(&mut a);
    a.options.set_provider_and_model("q".to_string(), "n".to_string());
    assert!(!a.finish_step(StepEnd::NeedsAnotherStep));
    a.head();
    let n = a.session.entries.len();
    assert!(a.enter_step(PreStepDecision::Enter { messages: Vec::new() }, "prompt"));
    assert_eq!(kinds(&a.session)[n..], ["step-start"]);
    assert!(!a.finish_step(StepEnd::NeedsAnotherStep));
    a.steer("more".to_string());
    a.head();
    let messages = claim(&mut a, InboxTarget::NextStep);
    let n = a.session.entries.len();
    assert!(a.enter_step(PreStepDecision::Enter { messages }, "prompt"));
    assert_eq!(kinds(&a.session)[n..], ["step-start", "user", "user"]);
}

#[test]
fn a_header_is_noted_when_any_part_of_it_changes() {
    let mut a = in_step();
    let asked = request(&mut a);
    assert_eq!((asked.provider.as_str(), asked.model.as_str()), ("p", "m"));
    assert_eq!(asked.system.as_deref(), Some("prompt"));
    assert_eq!(asked.tools.unwrap()[0].parameters, "{}");
    assert_eq!((asked.max_tokens, asked.temperature), (None, None));
    assert_eq!(asked.session_id.as_deref(), Some("s"));
    let n = a.session.entries.len();
    request(&mut a);
    assert_eq!(a.session.entries.len(), n);
    let mut config = a.proposed_config();
    config.temperature = Some(0.5f64.to_bits());
    config.max_tokens = Some(9);
    let asked = a.build_request(config, &assembly(""));
    assert_eq!((asked.max_tokens, asked.temperature), (Some(9), Some(0.5f64.to_bits())));
    assert!(asked.system.is_none());
    let mut config = a.proposed_config();
    config.temperature = Some(0.25f64.to_bits());
    config.max_tokens = Some(9);
    a.build_request(config, &assembly(""));
    let told = PromptAssembly { system: String::new(), tools: vec![schema("[]")] };
    let config = a.proposed_config();
    a.build_request(config, &told);
    let config = a.proposed_config();
    let asked = a.build_request(config, &PromptAssembly { system: String::new(), tools: vec![] });
    assert!(asked.tools.is_none());
    let rows = &a.session.entries[n..];
    assert_eq!(rows.len(), 4);
    for row in rows {
        match &row.event {
            SessionEvent::RequestHeader { header, reason } => {
                assert_eq!(*reason, HeaderReason::Change);
                assert!(header.system.is_none());
            }
            _ => panic!("a header was expected"),
        }
    }
}

#[test]
fn every_call_is_run_in_order() {
    let call = |id: &str| (id.to_string(), "fs".to_string(), "{}".to_string());
    let mut a = in_step();
    let n = a.session.entries.len();
    let mut round = ToolRound::new(vec![call("a"), call("b"), call("c")]);
    let mut run = Vec::new();
    while let Some(next) = round.next_call() {
        run.push(next.0.clone());
        a.call_tool(next);
        let answer = ToolAnswer {
            content: Vec::new(),
            is_error: false,
            concludes_turn: next.0 == "a",
            presentation: None,
        };
        let (_, concludes) = a.tool_answered(next, Some(answer));
        assert!(round.end().is_none());
        round.answered(concludes);
    }
    assert_eq!(run, ["a", "b", "c"]);
    assert!(matches!(round.end(), Some(StepEnd::Concluded(TurnEndReason::Completed))));
    assert_eq!(kinds(&a.session)[n..], ["call", "result", "call", "result", "call", "result"]);
    assert!(matches!(ToolRound::new(Vec::new()).end(), Some(StepEnd::NeedsAnotherStep)));
}

#[test]
fn a_summary_parts_no_call_from_its_answer() {
    let answers = vec![false, false, true, true, false];
    assert_eq!(pair_safe_boundary(&answers, 1), 4);
    assert_eq!(pair_safe_boundary(&answers, 2), 1);
    assert_eq!(pair_safe_boundary(&answers, 0), 5);
    assert_eq!(pair_safe_boundary(&answers, 5), 0);
    assert_eq!(pair_safe_boundary(&vec![true, true], 1), 0);
}

#[test]
fn rejected_input_blocks_the_turn() {
    let mut a = ReactLoopAgent::new("s".to_string(), options());
    a.followup("hi".to_string());
    a.start_turn();
    a.head();
    claim(&mut a, InboxTarget::NextTurn);
    assert!(!a.enter_step(PreStepDecision::Reject, "prompt"));
    a.end_turn();
    match &a.session.entries[1].event {
        SessionEvent::TurnEnd { reason, .. } => assert!(matches!(reason, TurnEndReason::Blocked)),
        _ => panic!("the end of the turn was expected"),
    }
}

#[test]
fn a_turn_without_input_is_completed_at_once() {
    let mut a = ReactLoopAgent::new("s".to_string(), options());
    a.start_turn();
    a.head();
    assert!(!a.enter_step(PreStepDecision::Enter { messages: Vec::new() }, ""));
    a.end_turn();
    assert_eq!(kinds(&a.session), vec!["turn-start", "turn-end"]);
}

#[test]
fn cancelling_drops_what_waits_and_ends_the_turn() {
    let mut a = ReactLoopAgent::new("s".to_string(), options());
    a.followup("one".to_string());
    a.steer("two".to_string());
    a.inject(Message {
        role: MessageRole::User,
        content: Vec::new(),
        source: MessageSource::User,
    });
    a.start_turn();
    let dropped = a.cancel();
    assert_eq!(dropped.len(), 3);
    assert_eq!(message_text(&dropped[0]), "one");
    assert_eq!(message_text(&dropped[1]), "two");
    assert!(!a.has_work());
    assert_eq!(a.head(), None);
    a.end_turn();
    match &a.session.entries[1].event {
        SessionEvent::TurnEnd { reason, .. } => assert!(matches!(reason, TurnEndReason::Aborted)),
        _ => panic!("the end of the turn was expected"),
    }
}

/// A driver inside the first step of its first turn.
fn in_step() -> ReactLoopAgent {
    let mut a = ReactLoopAgent::new("s".to_string(), options());
    a.followup("hi".to_string());
    a.start_turn();
    a.head();
    let messages = claim(&mut a, InboxTarget::NextTurn);
    assert!(a.enter_step(PreStepDecision::Enter { messages }, "prompt"));
    a
}

#[test]
fn failures_end_the_turn_unless_retried() {
    let fail = || Failure { code: "e".to_string(), message: "gone".to_string() };
    let mut a = in_step();
    let n = a.session.entries.len();
    let r = a.settle(FinishReason::Error(fail()), true, Ok(Vec::new()), "p", "m", None);
    assert!(matches!(r, Settled::Retry));
    let r = a.settle(FinishReason::Aborted(fail()), false, Ok(Vec::new()), "p", "m", None);
    match r {
        Settled::Failed { seen: AgentEvent::Error { message, code }, end } => {
            assert_eq!((message.as_str(), code.as_str()), ("gone", "e"));
            assert!(matches!(end, StepEnd::Concluded(TurnEndReason::Error(_))));
        }
        _ => panic!("a failure was expected"),
    }
    let r = a.settle(FinishReason::Stop, false, Err(fail()), "p", "m", None);
    assert!(matches!(r, Settled::Failed { .. }));
    assert_eq!(a.session.entries.len(), n);
}

#[test]
fn running_out_of_tokens_outlives_later_steps() {
    let mut a = in_step();
    let r = a.settle(FinishReason::MaxTokens, false, Ok(Vec::new()), "p", "m", None);
    let end = match r {
        Settled::Done { end, .. } => end,
        _ => panic!("an end was expected"),
    };
    a.steer("more".to_string());
    assert!(!a.finish_step(end));
    assert_eq!(a.head(), Some(InboxTarget::NextStep));
    let messages = claim(&mut a, InboxTarget::NextStep);
    assert!(a.enter_step(PreStepDecision::Enter { messages }, "prompt"));
    assert!(a.finish_step(StepEnd::Concluded(TurnEndReason::Completed)));
    assert!(matches!(
        a.end_turn(),
        AgentEvent::TurnEnded { reason: TurnEndReason::MaxTokens, .. }
    ));
    match &a.session.entries.last().unwrap().event {
        SessionEvent::TurnEnd { reason, .. } => {
            assert!(matches!(reason, TurnEndReason::MaxTokens));
        }
        _ => panic!("the end of the turn was expected"),
    }
}

#[test]
fn an_interrupted_step_keeps_what_was_said() {
    let usage = Some(TokenUsage {
        input_tokens: 3,
        output_tokens: 2,
        cache_read_tokens: None,
        cache_write_tokens: None,
        reasoning_tokens: None,
    });
    let mut a = in_step();
    let n = a.session.entries.len();
    let end = a.interrupt(Vec::new(), "p", "m", None);
    assert!(matches!(end, StepEnd::Concluded(TurnEndReason::Aborted)));
    assert_eq!(a.session.entries.len(), n);
    a.interrupt(vec![ContentBlock::Text { text: "half".to_string() }], "p", "m", usage);
    match &a.session.entries[n].event {
        SessionEvent::AssistantMessage { interrupted, message, usage: u, .. } => {
            assert!(*interrupted);
            assert_eq!(message_text(message), "half");
            assert_eq!(*u, usage);
        }
        _ => panic!("an answer was expected"),
    }
}

#[test]
fn a_tool_may_conclude_the_turn() {
    let mut a = in_step();
    let call = ("c".to_string(), "ask".to_string(), "{}".to_string());
    let answer = ToolAnswer {
        content: vec![ResultPart::Text("ok".to_string())],
        is_error: false,
        concludes_turn: true,
        presentation: None,
    };
    let (seen, concluded) = a.tool_answered(&call, Some(answer));
    assert!(concluded);
    assert!(matches!(seen, AgentEvent::ToolResult { is_error: false, .. }));
}

#[test]
fn a_missing_tool_is_named() {
    let a = tool_answer("nope", None);
    assert!(a.is_error && !a.concludes_turn);
    match &a.content[0] {
        ResultPart::Text(s) => assert_eq!(s, "no tool \"nope\""),
        ResultPart::Other => panic!("a text was expected"),
    }
}

#[test]
fn a_session_is_taken_up_where_its_log_stands() {
    let mut old = ReactLoopAgent::new("s".to_string(), options());
    old.followup("hi".to_string());
    old.start_turn();
    old.head();
    let messages = claim(&mut old, InboxTarget::NextTurn);
    old.enter_step(PreStepDecision::Enter { messages }, "prompt");
    let mut a = ReactLoopAgent::new("t".to_string(), options());
    a.followup("dropped".to_string());
    a.set_session(old.session);
    assert!(!a.has_work());
    assert_eq!(a.session().id, "s");
    assert_eq!(a.status(), AgentStatus::Idle);
    assert_eq!(a.system_head.as_ref().unwrap().1, "prompt");
    assert!(matches!(a.start_turn(), AgentEvent::TurnStarted { turn: 2 }));
    assert_eq!(a.turn.as_ref().unwrap().phase, TurnPhase::Head);
}

#[test]
fn summaries_name_what_they_stand_for() {
    let mut a = in_step();
    let n = a.session.entries.len();
    let seqs = vec![3, 5, 8];
    assert!(a.compact(&seqs, 0, "s".to_string(), 7, 9, "p", "m").is_none());
    assert_eq!(a.session.entries.len(), n);
    let seen = a.compact(&seqs, 2, "s".to_string(), 255, 9, "p", "m");
    assert!(matches!(seen, Some(AgentEvent::Compacted { shadowed_messages: 2 })));
    match &a.session.entries[n].event {
        SessionEvent::Compaction(c) => {
            assert_eq!(c.before_seq, 5);
            assert_eq!(c.first_seq, 3);
            assert_eq!(c.shadowed_seqs, vec![3, 5]);
            assert_eq!(c.id, "cp-000000000000000000000000000000ff");
            assert_eq!(c.tokens, 9);
        }
        _ => panic!("a summary was expected"),
    }
    assert!(should_compact(10, 2, 3, 11));
    assert!(!should_compact(0, 2, 3, 11));
    assert!(!should_compact(10, 3, 3, 11));
    assert!(!should_compact(10, 2, 3, 10));
    assert!(may_compact_now(AgentStatus::Idle, 2, 3));
    assert!(!may_compact_now(AgentStatus::Running, 2, 3));
}

#[test]
fn prompts_are_put_together() {
    assert_eq!(assemble_prompt("", "", None), "");
    assert_eq!(assemble_prompt("a", "b", None), "a\n\nb");
    assert_eq!(
        assemble_prompt("a", "", Some("/w")),
        "a\n\nCurrent DSH file policy: workspace-write. Any available operation enforced by the DSH file sandbox may modify files under the session workspace: \"/w\". Some platform temporary areas may also be writable."
    );
    assert!(system_prompt_message("").content.is_empty());
    assert_eq!(message_text(&system_prompt_message("x")), "x");
}

#[test]
fn ids_and_summaries_have_their_form() {
    assert_eq!(uuid_simple(0x1f), "0000000000000000000000000000001f");
    assert_eq!(bound_summary("  a  "), "a");
    let long = "x".repeat(200);
    assert_eq!(bound_summary(&long), format!("{}…", "x".repeat(119)));
    assert!(chunk_event(&StreamChunk::Other).is_none());
}
