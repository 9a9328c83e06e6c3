use dsh::process::{process_activity, process_activity_counts, process_title, ProcessActivity as PA};

#[test]
fn single_category_and_empty_fallback() {
    assert_eq!(process_title(&[]), "已完成分析");
    assert_eq!(process_title(&[(PA::Read, 3)]), "已读取文件");
}

#[test]
fn two_categories_join_with_shared_prefix_dedup() {
    assert_eq!(
        process_title(&[(PA::Read, 1), (PA::Search, 2)]),
        "已读取文件并搜索代码"
    );
    assert_eq!(
        process_title(&[(PA::Commands, 1), (PA::Edit, 1)]),
        "执行了命令并修改了文件"
    );
}

#[test]
fn three_plus_categories_join_with_comma_and_more() {
    assert_eq!(
        process_title(&[(PA::Commands, 4), (PA::Read, 2), (PA::Edit, 1)]),
        "执行了命令，已读取文件，修改了文件"
    );
    assert_eq!(
        process_title(&[
            (PA::Commands, 4),
            (PA::Read, 2),
            (PA::Edit, 1),
            (PA::Search, 1)
        ]),
        "执行了命令，已读取文件，修改了文件，已搜索代码等"
    );
}

#[test]
fn activity_categorizes_rustdsh_tool_names() {
    assert_eq!(process_activity("fs", r#"{"op":"read","path":"a"}"#), PA::Read);
    assert_eq!(process_activity("fs", r#"{"op":"write","path":"a"}"#), PA::Edit);
    assert_eq!(process_activity("fs", "{}"), PA::Tools);
    assert_eq!(process_activity("shell", "{}"), PA::Commands);
    assert_eq!(process_activity("grep", "{}"), PA::Search);
    assert_eq!(process_activity("glob", "{}"), PA::Search);
    assert_eq!(process_activity("web_search", "{}"), PA::WebSearch);
    assert_eq!(process_activity("web_fetch", "{}"), PA::WebFetch);
    assert_eq!(process_activity("subagent", "{}"), PA::Subagents);
    assert_eq!(process_activity("mystery", "{}"), PA::Tools);
}

#[test]
fn counts_dedupe_by_call_and_rank() {
    let calls = vec![
        ("c1".to_string(), "fs".to_string(), r#"{"op":"read"}"#.to_string()),
        ("c1".to_string(), "fs".to_string(), r#"{"op":"read"}"#.to_string()),
        ("c2".to_string(), "shell".to_string(), "{}".to_string()),
        ("c3".to_string(), "shell".to_string(), "{}".to_string()),
    ];
    let out = process_activity_counts(calls);
    assert_eq!(out, vec![(PA::Commands, 2), (PA::Read, 1)]);
}

#[test]
fn broken_arguments_count_as_tools() {
    assert_eq!(process_activity("fs", "{"), PA::Tools);
    assert_eq!(process_activity("fs", r#"{"op":7}"#), PA::Tools);
}

#[test]
fn counts_add_up_to_the_calls() {
    let call = |id: &str, name: &str| (id.to_string(), name.to_string(), "{}".to_string());
    let calls = vec![call("1", "bash"), call("2", "bash"), call("3", "todo_write"), call("4", "x")];
    let counts = process_activity_counts(calls.clone());
    assert_eq!(counts.iter().map(|c| c.1).sum::<usize>(), 4);
    let again = [calls.clone(), calls].concat();
    assert_eq!(process_activity_counts(again), counts);
}
