//! Requests and streams, end to end.

use bytes::Bytes;
use codebuddy_chat::error::ApiError;
use codebuddy_chat::event::{ResponseEvent, ResponseItem};
use codebuddy_chat::json::Json;
use codebuddy_chat::request::encode;
use codebuddy_chat::stream::{ChatStream, Incoming};
use codebuddy_chat::tools::ToolTable;
use codebuddy_chat::wire::{parse, text_of};
use eventsource_stream::Eventsource;
use futures::StreamExt;
use std::convert::Infallible;

fn json(text: &str) -> Json {
    parse(text).unwrap()
}

/// A text as a JSON literal.
fn quoted(text: &str) -> String {
    text_of(&Json::of_text(text))
}

fn at<'a>(value: &'a Json, key: &str, index: usize) -> &'a Json {
    &value.field(key).as_array().unwrap()[index]
}

fn request() -> Json {
    json(
        r#"{"model":"deepseek-v4.1-flash","instructions":"Be concise.","input":[],"reasoning":{"effort":"high"},"tools":[{"type":"namespace","name":"functions","tools":[{"type":"function","name":"exec_command","parameters":{"type":"object"}},{"type":"custom","name":"apply_patch"}]}]}"#,
    )
}

fn no_tools() -> ToolTable {
    ToolTable::new()
}

/// What a stream reports. The data is split inside event framing and JSON tokens.
fn stream(data: &str, tools: ToolTable) -> Vec<Result<ResponseEvent, ApiError>> {
    let chunks: Vec<Result<Bytes, Infallible>> =
        data.as_bytes().chunks(7).map(Bytes::copy_from_slice).map(Ok).collect();
    let mut source = futures::stream::iter(chunks).eventsource();
    let mut chat = ChatStream::new(tools);
    let mut events = Vec::new();
    loop {
        let incoming = match futures::executor::block_on(source.next()) {
            None => Incoming::Ended,
            Some(Ok(event)) => Incoming::Data(event.data),
            Some(Err(_)) => Incoming::Malformed,
        };
        let reply = chat.receive(incoming);
        events.extend(reply.events.into_iter().map(Ok));
        if let Some(error) = reply.error {
            events.push(Err(error));
        }
        if reply.done {
            return events;
        }
    }
}

#[test]
fn streams_parallel_tools_and_replays_reasoning_and_custom_input() {
    let (body, tools) = encode(request()).unwrap();
    assert_eq!(*at(&body, "messages", 0), json(r#"{"role":"system","content":"Be concise."}"#));
    assert_eq!(body.field("reasoning_effort").as_str(), Some("high"));
    assert_eq!(*body.field("thinking"), json(r#"{"type":"enabled"}"#));
    assert_eq!(
        at(&body, "tools", 0).field("function").field("name").as_str(),
        Some("functions__exec_command")
    );
    let chunks = [
        r#"{"id":"reply-1","model":"deepseek-v4.1-flash","choices":[{"index":0,"delta":{"reasoning_content":"Use tools."}}]}"#,
        r#"{"id":"reply-1","choices":[{"index":0,"delta":{"tool_calls":[{"index":1,"id":"patch","function":{"name":"functions__apply_patch","arguments":"{\"input\":"}},{"index":0,"id":"exec","function":{"name":"functions__exec_command","arguments":"{\"cmd\":"}}]}}]}"#,
        r#"{"id":"reply-1","choices":[{"index":0,"delta":{"tool_calls":[{"index":0,"function":{"arguments":"\"pwd\"}"}},{"index":1,"function":{"arguments":"\"patch text\"}"}}]},"finish_reason":"tool_calls"}]}"#,
        r#"{"id":"reply-1","choices":[],"usage":{"prompt_tokens":20,"prompt_cache_hit_tokens":5,"completion_tokens":8,"completion_tokens_details":{"reasoning_tokens":3},"total_tokens":28}}"#,
    ];
    let data =
        chunks.iter().map(|c| format!("data: {c}\n\n")).collect::<String>() + "data: [DONE]\n\n";
    let mut history = Vec::new();
    let mut completed = false;
    for event in stream(&data, tools) {
        match event.unwrap() {
            ResponseEvent::OutputItemDone(item) => history.push(item.json()),
            ResponseEvent::Completed { token_usage: Some(usage), end_turn, .. } => {
                assert_eq!(
                    (
                        usage.input_tokens,
                        usage.cached_input_tokens,
                        usage.output_tokens,
                        usage.reasoning_output_tokens,
                        usage.total_tokens
                    ),
                    (20, 5, 8, 3, 28)
                );
                assert_eq!(end_turn, Some(false));
                completed = true;
            }
            _ => {}
        }
    }
    assert!(completed);
    assert_eq!(history.len(), 3);
    assert_eq!(history[1].field("namespace").as_str(), Some("functions"));
    assert_eq!(history[1].field("arguments").as_str(), Some(r#"{"cmd":"pwd"}"#));
    assert_eq!(history[2].field("type").as_str(), Some("custom_tool_call"));
    assert_eq!(history[2].field("input").as_str(), Some("patch text"));
    history.push(json(r#"{"type":"function_call_output","call_id":"exec","output":"/workspace"}"#));
    history.push(json(r#"{"type":"custom_tool_call_output","call_id":"patch","output":"Done"}"#));
    history.push(json(
        r#"{"type":"agent_message","author":"/root","recipient":"/root/worker","content":[{"type":"input_text","text":"continue"}]}"#,
    ));
    let (body, _) = encode(request().with("input", Json::Array(history))).unwrap();
    let called = at(&body, "messages", 1);
    assert_eq!(called.field("reasoning_content").as_str(), Some("Use tools."));
    assert_eq!(called.field("tool_calls").as_array().unwrap().len(), 2);
    assert_eq!(
        *at(&body, "messages", 3),
        json(r#"{"role":"tool","tool_call_id":"patch","content":"Done"}"#)
    );
    assert_eq!(at(&body, "messages", 4).field("content").as_str(), Some("continue"));
}

#[test]
fn preserves_full_instructions_and_model_switch_messages() {
    let instructions =
        format!("You are a coding agent. {}", "Preserve permissions. ".repeat(400));
    let value = request().with("instructions", Json::of_text(&instructions)).with(
        "input",
        json(
            r#"[
            {"type":"message","role":"system","content":"<model_switch>CodeBuddy worker</model_switch>"},
            {"type":"message","role":"developer","content":"Preserve tool and permission rules."}
        ]"#,
        ),
    );
    let expected = json(&format!(
        r#"[
            {{"role":"system","content":{}}},
            {{"role":"system","content":"<model_switch>CodeBuddy worker</model_switch>"}},
            {{"role":"system","content":"Preserve tool and permission rules."}}
        ]"#,
        quoted(&instructions)
    ));
    assert_eq!(*encode(value).unwrap().0.field("messages"), expected);
}

#[test]
fn folds_assistant_commentary_before_tool_results() {
    let value = request().with(
        "input",
        json(
            r#"[
            {"type":"message","role":"user","content":"Run pwd"},
            {"type":"function_call","call_id":"call_1","name":"exec_command","arguments":"{}"},
            {"type":"message","role":"assistant","content":"I will inspect the workspace first."},
            {"type":"function_call_output","call_id":"call_1","output":"/tmp"}
        ]"#,
        ),
    );
    let (body, _) = encode(value).unwrap();
    let spoken = at(&body, "messages", 2);
    assert_eq!(spoken.field("role").as_str(), Some("assistant"));
    assert_eq!(spoken.field("content").as_str(), Some("I will inspect the workspace first."));
    assert_eq!(
        *at(&body, "messages", 3),
        json(r#"{"role":"tool","tool_call_id":"call_1","content":"/tmp"}"#)
    );
}

#[test]
fn preserves_orphan_reasoning_before_parent_message() {
    let value = request().with(
        "input",
        json(
            r#"[
            {"type":"message","role":"user","content":"Inspect the workspace"},
            {"type":"reasoning","content":"I was interrupted while planning.","encrypted_content":null},
            {"type":"agent_message","author":"/root","recipient":"/root/worker","content":[{"type":"input_text","text":"Continue."}]}
        ]"#,
        ),
    );
    let (body, _) = encode(value).unwrap();
    assert_eq!(at(&body, "messages", 2).field("role").as_str(), Some("assistant"));
    assert_eq!(
        at(&body, "messages", 2).field("reasoning_content").as_str(),
        Some("I was interrupted while planning.")
    );
    assert_eq!(at(&body, "messages", 3).field("role").as_str(), Some("user"));
}

#[test]
fn collects_lite_tools_with_descriptions_and_rejects_conflicting_duplicates() {
    let description = "Tool usage rules. ".repeat(5000);
    let specs = |parameters: &str| {
        json(&format!(
            r#"[{{"type":"namespace","name":"functions","tools":[{{"type":"function","name":"exec_command","parameters":{parameters},"description":{}}},{{"type":"custom","name":"apply_patch"}}]}}]"#,
            quoted(&description)
        ))
    };
    let added = |parameters: &str| {
        Json::Array(vec![
            Json::object().with("type", Json::of_text("additional_tools")).with("tools", specs(parameters)),
        ])
    };
    let plain = r#"{"type":"object"}"#;
    let value = request().with("tools", Json::Null).with("input", added(plain));
    let (body, mapping) = encode(value.clone()).unwrap();
    assert_eq!(mapping.len(), 2);
    assert_eq!(
        at(&body, "tools", 0).field("function").field("description").as_str(),
        Some(description.as_str())
    );
    let value = value.with("tools", specs(plain));
    assert_eq!(encode(value.clone()).unwrap().0, body);
    let value = value.with("input", added(r#"{"type":"object","required":["cmd"]}"#));
    assert!(encode(value).is_err());
}

#[test]
fn does_not_replay_display_summary_as_raw_reasoning() {
    let value = request().with(
        "input",
        json(
            r#"[
            {"type":"reasoning","summary":[{"type":"summary_text","text":"Display summary"}]},
            {"type":"message","role":"assistant","content":"Answer"}
        ]"#,
        ),
    );
    assert_eq!(
        *encode(value).unwrap().0.field("messages"),
        json(
            r#"[
            {"role":"system","content":"Be concise."},
            {"role":"assistant","content":"Answer"}
        ]"#
        )
    );
}

#[test]
fn rejects_unsupported_history_effort_and_tool_collisions() {
    for input in [
        r#"[{"type":"agent_message","content":[{"type":"encrypted_content","encrypted_content":"opaque"}]}]"#,
        r#"[{"type":"message","role":"user","content":[{"type":"input_image","image_url":"https://example.com/image"}]}]"#,
        r#"[{"type":"reasoning","encrypted_content":"opaque","summary":[]}]"#,
        r#"[{"type":"compaction","encrypted_content":"opaque"}]"#,
    ] {
        let value = request().with("input", json(input));
        assert!(matches!(encode(value), Err(ApiError::InvalidRequest { .. })));
    }
    for effort in ["high", "max"] {
        let value = request().with("reasoning", Json::object().with("effort", Json::of_text(effort)));
        assert_eq!(encode(value).unwrap().0.field("reasoning_effort").as_str(), Some(effort));
    }
    let value = request().with("reasoning", Json::object().with("effort", Json::of_text("medium")));
    assert!(encode(value).is_err());
    let mut tools = request().field("tools").as_array().unwrap().clone();
    tools.push(json(r#"{"type":"function","name":"functions__exec_command"}"#));
    assert!(encode(request().with("tools", Json::Array(tools))).is_err());
}

#[test]
fn preserves_supported_tool_choices_and_rejects_named_choices() {
    for choice in ["auto", "none", "required"] {
        let value = request().with("tool_choice", Json::of_text(choice));
        assert_eq!(encode(value).unwrap().0.field("tool_choice").as_str(), Some(choice));
    }
    let value = request().with(
        "tool_choice",
        json(r#"{"type":"function","function":{"name":"exec_command"}}"#),
    );
    assert!(encode(value).is_err());
}

#[test]
fn rejects_truncated_streams_and_incomplete_tool_calls() {
    for suffix in ["", "data: [DONE]\n\n"] {
        let data = format!(
            "data: {{\"id\":\"r\",\"choices\":[{{\"index\":0,\"delta\":{{\"tool_calls\":[{{\"index\":0,\"id\":\"c\",\"function\":{{\"name\":\"functions__exec_command\",\"arguments\":\"{{\"}}}}]}}}}]}}\n\n{suffix}"
        );
        let (_, tools) = encode(request()).unwrap();
        let events = stream(&data, tools);
        assert!(events.iter().any(Result::is_err));
        assert!(!events.iter().any(|e| matches!(
            e,
            Ok(ResponseEvent::OutputItemDone(ResponseItem::FunctionCall { .. })
                | ResponseEvent::Completed { .. })
        )));
    }
}

#[test]
fn reports_length_as_incomplete_for_partial_text() {
    let data = "data: {\"id\":\"text\",\"choices\":[{\"index\":0,\"delta\":{\"content\":\"partial\"}}]}\n\ndata: {\"id\":\"text\",\"choices\":[{\"index\":0,\"delta\":{},\"finish_reason\":\"length\"}]}\n\ndata: [DONE]\n\n";
    let events = stream(data, no_tools());
    assert!(events.iter().any(|event| matches!(
        event,
        Ok(ResponseEvent::OutputTextDelta(text)) if text == "partial"
    )));
    assert!(matches!(events.last(), Some(Ok(ResponseEvent::Incomplete { .. }))));
}

#[test]
fn streams_text_and_completes_only_after_done() {
    let data = "data: {\"id\":\"text\",\"choices\":[{\"index\":0,\"delta\":{\"content\":\"hello\"}}]}\n\ndata: {\"id\":\"text\",\"choices\":[{\"index\":0,\"delta\":{},\"finish_reason\":\"stop\"}]}\n\ndata: [DONE]\n\n";
    let events = stream(data, no_tools());
    assert!(events
        .iter()
        .any(|e| matches!(e, Ok(ResponseEvent::OutputTextDelta(text)) if text == "hello")));
    assert!(matches!(
        events.last(),
        Some(Ok(ResponseEvent::Completed { end_turn: Some(true), .. }))
    ));
}

#[test]
fn rejects_unadvertised_and_malformed_completed_calls() {
    let value = request().with(
        "input",
        json(
            r#"[
            {"type":"function_call","call_id":"old","name":"removed_tool","arguments":"{}"},
            {"type":"function_call_output","call_id":"old","output":"old result"}
        ]"#,
        ),
    );
    let (_, tools) = encode(value).unwrap();
    for (name, arguments) in [
        ("removed_tool", "{}"),
        ("functions__exec_command", "{"),
        ("functions__apply_patch", "{}"),
    ] {
        let chunk = format!(
            r#"{{"id":"bad","choices":[{{"index":0,"delta":{{"tool_calls":[{{"index":0,"id":"call","function":{{"name":{},"arguments":{}}}}}]}},"finish_reason":"tool_calls"}}]}}"#,
            quoted(name),
            quoted(arguments)
        );
        let events = stream(&format!("data: {chunk}\n\ndata: [DONE]\n\n"), tools.clone());
        assert!(events.iter().any(Result::is_err));
        assert!(!events.iter().any(|event| matches!(event, Ok(ResponseEvent::OutputItemDone(_)))));
    }
}

#[test]
fn long_tool_names_roundtrip_without_becoming_executable_from_history() {
    let long_name = "long-tool-name-".repeat(8);
    let value = request()
        .with("tools", json(&format!(r#"[{{"type":"function","name":{}}}]"#, quoted(&long_name))))
        .with(
            "input",
            json(&format!(
                r#"[{{"type":"function_call","name":{},"call_id":"c","arguments":"{{}}"}}, {{"type":"function_call_output","call_id":"c","output":"Done"}}]"#,
                quoted(&long_name)
            )),
        );
    let (body, tools) = encode(value).unwrap();
    let alias = at(&body, "tools", 0).field("function").field("name").as_str().unwrap();
    assert!(alias.len() <= 64);
    assert_eq!(tools.get(alias).unwrap().name, long_name);
    assert_eq!(
        at(at(&body, "messages", 1), "tool_calls", 0).field("function").field("name").as_str(),
        Some(alias)
    );
}

#[test]
fn length_preserves_reasoning_usage_but_never_dispatches_tools() {
    let (_, tools) = encode(request()).unwrap();
    let chunk = r#"{"id":"limited","choices":[{"index":0,"delta":{"reasoning_content":"Partial plan","tool_calls":[{"index":0,"id":"call","function":{"name":"functions__exec_command","arguments":"{}"}}]},"finish_reason":"length"}],"usage":{"prompt_tokens":10,"completion_tokens":32000,"completion_tokens_details":{"reasoning_tokens":32000},"total_tokens":32010}}"#;
    let events = stream(&format!("data: {chunk}\n\ndata: [DONE]\n\n"), tools);
    assert!(events.iter().any(|event| matches!(
        event,
        Ok(ResponseEvent::OutputItemDone(ResponseItem::Reasoning { .. }))
    )));
    assert!(!events.iter().any(|event| matches!(
        event,
        Ok(ResponseEvent::Completed { .. }
            | ResponseEvent::OutputItemDone(
                ResponseItem::FunctionCall { .. } | ResponseItem::CustomToolCall { .. }
            ))
    )));
    assert!(
        matches!(events.last(), Some(Ok(ResponseEvent::Incomplete { token_usage: Some(usage), .. })) if usage.output_tokens == 32000 && usage.reasoning_output_tokens == 32000)
    );
}

#[test]
fn complete_message_snapshots_are_preserved_once_and_conflicts_rejected() {
    let message =
        r#"{"role":"assistant","reasoning_content":"Plan once.","content":"Answer once."}"#;
    for conflicting in [false, true] {
        let second =
            if conflicting { r#"{"role":"assistant","content":"Changed"}"# } else { message };
        let chunks = [
            r#"{"id":"snapshot","choices":[{"index":0,"delta":{"role":"assistant","content":"","reasoning_content":"","tool_calls":[]}}]}"#.to_owned(),
            format!(r#"{{"id":"snapshot","choices":[{{"index":0,"message":{message}}}]}}"#),
            format!(r#"{{"id":"snapshot","choices":[{{"index":0,"message":{second},"finish_reason":"stop"}}]}}"#),
        ];
        let data = chunks.iter().map(|c| format!("data: {c}\n\n")).collect::<String>()
            + "data: [DONE]\n\n";
        let events = stream(&data, no_tools());
        if conflicting {
            assert!(events.iter().any(Result::is_err));
            assert!(!events.iter().any(|e| matches!(e, Ok(ResponseEvent::Completed { .. }))));
        } else {
            let items: Vec<Json> = events
                .into_iter()
                .map(Result::unwrap)
                .filter_map(|e| match e {
                    ResponseEvent::OutputItemDone(item) => Some(item.json()),
                    _ => None,
                })
                .collect();
            assert_eq!(items.len(), 2);
            assert_eq!(at(&items[0], "content", 0).field("text").as_str(), Some("Plan once."));
            assert_eq!(at(&items[1], "content", 0).field("text").as_str(), Some("Answer once."));
        }
    }
}

#[test]
fn complete_tool_message_dispatches_once_and_mixed_content_is_rejected() {
    let message = r#"{"role":"assistant","content":null,"reasoning_content":"Use tool.",
        "tool_calls":[{"id":"exec","type":"function","function":{"name":"functions__exec_command","arguments":"{}"}}]}"#
        .replace('\n', " ");
    for mixed in [false, true] {
        let (_, tools) = encode(request()).unwrap();
        let second = if mixed {
            format!(r#"{{"index":0,"message":{message},"delta":{{"content":"Conflicting"}},"finish_reason":"tool_calls"}}"#)
        } else {
            format!(r#"{{"index":0,"message":{message},"finish_reason":"tool_calls"}}"#)
        };
        let chunks = [
            format!(r#"{{"id":"snapshot","choices":[{{"index":0,"message":{message}}}]}}"#),
            format!(r#"{{"id":"snapshot","choices":[{second}]}}"#),
        ];
        let data = chunks.iter().map(|c| format!("data: {c}\n\n")).collect::<String>()
            + "data: [DONE]\n\n";
        let events = stream(&data, tools);
        let calls = events
            .iter()
            .filter(|e| {
                matches!(e, Ok(ResponseEvent::OutputItemDone(ResponseItem::FunctionCall { .. })))
            })
            .count();
        if mixed {
            assert!(events.iter().any(Result::is_err));
            assert_eq!(calls, 0);
        } else {
            assert!(events.iter().all(Result::is_ok));
            assert_eq!(calls, 1);
        }
    }
}

#[test]
fn preserves_explicit_output_budgets_and_rejects_invalid_or_conflicting_values() {
    assert!(encode(request()).unwrap().0.get("max_tokens").is_none());
    for key in ["max_output_tokens", "max_completion_tokens", "max_tokens"] {
        let value = request().with(key, json("128000"));
        assert_eq!(*encode(value.clone()).unwrap().0.field("max_tokens"), json("128000"));
        for invalid_value in ["null", "0", "-1", "1.5", "\"128000\""] {
            assert!(encode(value.clone().with(key, json(invalid_value))).is_err());
        }
    }
    let value = request().with("max_output_tokens", json("256")).with("max_tokens", json("256"));
    assert_eq!(*encode(value.clone()).unwrap().0.field("max_tokens"), json("256"));
    assert!(encode(value.with("max_tokens", json("512"))).is_err());
}

#[test]
fn tool_fragments_use_exact_advertised_names_and_stable_identity() {
    let request = request().with(
        "tools",
        json(
            r#"[
            {"type":"function","name":"run","parameters":{"type":"object"}},
            {"type":"function","name":"runrun","parameters":{"type":"object"}},
            {"type":"function","name":"read","parameters":{"type":"object"}}
        ]"#,
        ),
    );
    let (_, tools) = encode(request).unwrap();
    let cases = [
        (
            vec![
                r#"{"index":0,"id":"a","function":{"name":"re","arguments":"{"}}"#,
                r#"{"id":"a","function":{"name":"ad","arguments":"}"}}"#,
            ],
            true,
        ),
        (
            vec![
                r#"{"index":0,"id":"a","function":{"arguments":"{"}}"#,
                r#"{"index":0,"function":{"name":"read","arguments":"}"}}"#,
                r#"{"index":0,"function":{"name":"read"}}"#,
            ],
            true,
        ),
        (
            vec![
                r#"{"index":0,"id":"a","function":{"name":"run","arguments":"{}"}}"#,
                r#"{"index":0,"function":{"name":"run"}}"#,
            ],
            false,
        ),
        (
            vec![
                r#"{"index":0,"id":"a","function":{"name":"read","arguments":"{"}}"#,
                r#"{"index":1,"id":"b","function":{"name":"run","arguments":"{}"}}"#,
                r#"{"id":"a","function":{"arguments":"}"}}"#,
            ],
            true,
        ),
        (
            vec![
                r#"{"index":0,"id":"a","function":{"name":"read","arguments":"{}"}}"#,
                r#"{"index":1,"id":"a","function":{"name":"run","arguments":"{}"}}"#,
            ],
            false,
        ),
        (
            vec![
                r#"{"index":0,"id":"a","function":{"name":"read","arguments":"{"}}"#,
                r#"{"index":1,"id":"b","function":{"name":"run","arguments":"{}"}}"#,
                r#"{"id":"a","function":{"arguments":""}}"#,
                r#"{"function":{"arguments":"}"}}"#,
            ],
            false,
        ),
    ];
    for (parts, valid) in cases {
        let mut data = parts
            .into_iter()
            .map(|part| {
                format!(
                    "data: {{\"id\":\"reply\",\"choices\":[{{\"index\":0,\"delta\":{{\"tool_calls\":[{part}]}}}}]}}\n\n"
                )
            })
            .collect::<String>();
        data.push_str("data: {\"id\":\"reply\",\"choices\":[{\"index\":0,\"delta\":{},\"finish_reason\":\"tool_calls\"}]}\n\ndata: [DONE]\n\n");
        let events = stream(&data, tools.clone());
        assert_eq!(events.iter().all(Result::is_ok), valid, "{events:?}");
        let calls = events
            .iter()
            .filter(|e| {
                matches!(e, Ok(ResponseEvent::OutputItemDone(ResponseItem::FunctionCall { .. })))
            })
            .count();
        assert_eq!(calls > 0, valid, "{events:?}");
    }
}

#[test]
fn stream_business_error_preserves_details_usage_and_stops_without_done() {
    let data = format!(
        "data: {}\n\ndata: {}\n\n",
        r#"{"id":"failed","choices":[{"index":0,"delta":{"reasoning_content":"Partial work"}}]}"#,
        r#"{"error":{"code":"provider_limit","message":"Limit reached"},"request_id":"trace-123","usage":{"prompt_tokens":10,"completion_tokens":5,"total_tokens":15}}"#
    );
    let events = stream(&data, no_tools());
    assert!(events.iter().all(Result::is_ok), "{events:?}");
    assert!(events.iter().any(|e| matches!(
        e,
        Ok(ResponseEvent::OutputItemDone(ResponseItem::Reasoning { .. }))
    )));
    let Some(Ok(ResponseEvent::Incomplete { reason, token_usage: Some(usage), .. })) = events.last()
    else {
        panic!("{events:?}")
    };
    assert!(
        reason.contains("provider_limit")
            && reason.contains("Limit reached")
            && reason.contains("trace-123")
    );
    assert_eq!(usage.total_tokens, 15);
    assert!(!events.iter().any(|e| matches!(e, Ok(ResponseEvent::Completed { .. }))));
    let events = stream("data: {\"error\":{\"message\":\"failed before ID\"}}\n\n", no_tools());
    assert!(matches!(events.as_slice(), [Ok(ResponseEvent::Incomplete { .. })]));
}

#[test]
fn usage_distinguishes_absence_from_zero_and_retains_source_counters() {
    for invalid_count in ["-1", "\"10\"", "1.5"] {
        let chunk = format!(
            r#"{{"id":"usage","choices":[{{"index":0,"delta":{{}},"finish_reason":"stop"}}],"usage":{{"prompt_tokens":20,"completion_tokens":10,"total_tokens":30,"prompt_cache_hit_tokens":{invalid_count}}}}}"#
        );
        let events = stream(&format!("data: {chunk}\n\ndata: [DONE]\n\n"), no_tools());
        assert!(events.iter().any(Result::is_err));
    }
    for usage in [
        "null",
        "{}",
        r#"{"prompt_tokens":0,"completion_tokens":0,"total_tokens":0}"#,
        r#"{"prompt_tokens":20,"completion_tokens":10,"total_tokens":30,"prompt_tokens_details":{"cached_tokens":5},"prompt_cache_hit_tokens":99,"completion_thinking_tokens":7,"credit":1.2}"#,
    ] {
        let chunk = format!(
            r#"{{"id":"usage","choices":[{{"index":0,"delta":{{"content":"ok"}},"finish_reason":"stop"}}],"usage":{usage}}}"#
        );
        let usage = json(usage);
        let events = stream(&format!("data: {chunk}\n\ndata: [DONE]\n\n"), no_tools());
        let Some(Ok(ResponseEvent::Completed { token_usage, usage_metadata, .. })) = events.last()
        else {
            panic!("{events:?}")
        };
        assert_eq!(token_usage.is_some(), usage.get("total_tokens").is_some());
        assert_eq!(
            usage_metadata.as_ref().and_then(|m| m.metadata.as_ref()).map(|m| m.field("usage")),
            if usage.is_null() { None } else { Some(&usage) }
        );
        if usage.field("total_tokens").as_i64() == Some(30) {
            let u = token_usage.as_ref().unwrap();
            assert_eq!((u.cached_input_tokens, u.reasoning_output_tokens), (5, 7));
        }
    }
}

#[test]
fn rejects_cross_completion_fragments_and_empty_streams() {
    for data in [
        "data: {}\n\n",
        "data: [DONE]\n\n",
        "data: {\"id\":\"a\",\"choices\":[]}\n\ndata: {\"id\":\"b\",\"choices\":[{\"index\":0,\"delta\":{\"content\":\"mixed\"},\"finish_reason\":\"stop\"}]}\n\ndata: [DONE]\n\n",
    ] {
        let events = stream(data, no_tools());
        assert!(events.iter().any(Result::is_err), "{events:?}");
        assert!(!events.iter().any(|e| matches!(e, Ok(ResponseEvent::Completed { .. }))));
    }
}

#[test]
fn validates_complete_history_tool_batches_without_fabricating_results() {
    let a = r#"{"type":"function_call","call_id":"a","name":"exec_command","arguments":"{}"}"#;
    let b = r#"{"type":"function_call","call_id":"b","name":"exec_command","arguments":"{}"}"#;
    let ra = r#"{"type":"function_call_output","call_id":"a","output":"A"}"#;
    let rb = r#"{"type":"function_call_output","call_id":"b","output":"B"}"#;
    let notice = r#"{"type":"agent_message","content":"Continue"}"#;
    for (input, valid) in [
        (vec![a, b, rb, ra, notice], true),
        (vec![a, b, ra], false),
        (vec![a, b, ra, notice, rb], false),
        (vec![a, a, ra], false),
        (vec![a, ra, ra], false),
        (vec![ra], false),
    ] {
        let value = request().with("input", json(&format!("[{}]", input.join(","))));
        assert_eq!(encode(value).is_ok(), valid);
    }
}

#[test]
fn tools_are_known_and_called_as_advertised() {
    let odd = "no plain name".to_owned();
    let value = request()
        .with(
            "tools",
            json(&format!(
                r#"[{{"type":"function","name":"run"}},{{"type":"namespace","name":"n","tools":[{{"type":"custom","name":{}}}]}}]"#,
                quoted(&odd)
            )),
        )
        .with(
            "input",
            json(&format!(
                r#"[{{"type":"custom_tool_call","call_id":"a","namespace":"n","name":{},"input":"x"}},
                    {{"type":"function_call","call_id":"b","name":"gone","arguments":"{{}}"}},
                    {{"type":"custom_tool_call_output","call_id":"a","output":"1"}},
                    {{"type":"function_call_output","call_id":"b","output":"2"}}]"#,
                quoted(&odd)
            )),
        );
    let (body, tools) = encode(value).unwrap();
    let names: Vec<&str> = body
        .field("tools")
        .as_array()
        .unwrap()
        .iter()
        .map(|tool| tool.field("function").field("name").as_str().unwrap())
        .collect();
    assert_eq!(names.len(), tools.len());
    assert!(names.iter().all(|name| tools.get(name).is_some() && name.len() <= 64));
    assert!(tools.get("gone").is_none());
    let calls = at(&body, "messages", 1);
    assert_eq!(at(calls, "tool_calls", 0).field("function").field("name").as_str(), Some(names[1]));
    assert_eq!(tools.get(names[1]).unwrap().name, odd);

    // Streamed in pieces, the same name comes out as the same tool.
    let (first, second) = names[1].split_at(9);
    let data = format!(
        "data: {{\"id\":\"c\",\"choices\":[{{\"index\":0,\"delta\":{{\"tool_calls\":[{{\"index\":4,\"id\":\"d\",\"function\":{{\"name\":\"{first}\",\"arguments\":\"{{ \\\"input\\\"\"}}}}]}}}}]}}\n\ndata: {{\"id\":\"c\",\"choices\":[{{\"index\":0,\"delta\":{{\"tool_calls\":[{{\"id\":\"d\",\"function\":{{\"name\":\"{second}\",\"arguments\":\": \\\"y\\\"}}\"}}}}]}},\"finish_reason\":\"tool_calls\"}}]}}\n\ndata: [DONE]\n\n"
    );
    let done: Vec<ResponseItem> = stream(&data, tools)
        .into_iter()
        .map(Result::unwrap)
        .filter_map(|event| match event {
            ResponseEvent::OutputItemDone(item) => Some(item),
            _ => None,
        })
        .collect();
    assert_eq!(
        done,
        vec![ResponseItem::CustomToolCall {
            call_id: "d".to_owned(),
            name: odd,
            namespace: Some("n".to_owned()),
            input: "y".to_owned(),
        }]
    );
}

#[test]
fn a_message_is_opened_once_before_its_first_fragment() {
    let data = "data: {\"id\":\"c\",\"choices\":[{\"index\":0,\"delta\":{\"reasoning_content\":\"r\",\"content\":\"\"}}]}\n\ndata: {\"id\":\"c\",\"choices\":[{\"index\":0,\"delta\":{\"content\":\"a\"}},{\"index\":0,\"delta\":{\"content\":\"b\"}}]}\n\ndata: {\"id\":\"c\",\"choices\":[{\"index\":0,\"delta\":{\"content\":\"c\"},\"finish_reason\":\"stop\"}]}\n\ndata: [DONE]\n\n";
    let events: Vec<ResponseEvent> =
        stream(data, no_tools()).into_iter().map(Result::unwrap).collect();
    let opened = ResponseItem::Message {
        id: Some("c-message".to_owned()),
        role: "assistant".to_owned(),
        content: Vec::new(),
    };
    assert_eq!(
        events[1..5],
        [
            ResponseEvent::OutputItemAdded(opened.clone()),
            ResponseEvent::OutputTextDelta("a".to_owned()),
            ResponseEvent::OutputTextDelta("b".to_owned()),
            ResponseEvent::OutputTextDelta("c".to_owned()),
        ]
    );
    let again = ResponseEvent::OutputItemAdded(opened);
    assert_eq!(events.iter().filter(|event| **event == again).count(), 1);
}
