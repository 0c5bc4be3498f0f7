//! The parts of the library, one by one.

use std::collections::hash_map::DefaultHasher;
use std::hash::{Hash, Hasher};

use codebuddy_chat::calls::{fragment, Call, Calls};
use codebuddy_chat::completion::{token_usage, Completion};
use codebuddy_chat::dispatch::{call_item, resolve};
use codebuddy_chat::event::{IncompleteKind, ResponseEvent, ResponseItem, TokenUsage};
use codebuddy_chat::history::{can_stand_in, custom_arguments_text, string, text, History, SentResult};
use codebuddy_chat::json::Json;
use codebuddy_chat::message::{Message, WireCall};
use codebuddy_chat::recovery::OutputLimitRecovery;
use codebuddy_chat::request::{encode, settings};
use codebuddy_chat::stream::{chat_request, ChatStream, Incoming};
use codebuddy_chat::text::{joined, starts_with};
use codebuddy_chat::tools::{register, wire_name, Tool, ToolTable};
use codebuddy_chat::wire::{parse, text_of};

fn json(text: &str) -> Json {
    parse(text).unwrap()
}

fn tool(namespace: Option<&str>, name: &str, custom: bool) -> Tool {
    Tool { name: name.to_owned(), namespace: namespace.map(str::to_owned), custom }
}

#[test]
fn json_is_read_and_written() {
    let value = json(r#"{"b":[1,-2,2.5,true,null],"a":"x\n","b":18446744073709551615}"#);
    assert_eq!(value.field("b").as_u64(), Some(u64::MAX));
    assert_eq!(value.field("b").as_i64(), None);
    assert_eq!(value.field("a").as_str(), Some("x\n"));
    assert!(value.field("c").is_null() && value.get("c").is_none());
    assert_eq!(text_of(&value), r#"{"a":"x\n","b":18446744073709551615}"#);
    assert_eq!(text_of(&json("[1, -2, 2.50, 1e300, false]")), "[1,-2,2.5,1e+300,false]");
    assert!(parse("{").is_none());
    assert!(parse("").is_none());
    assert_eq!(json("-9223372036854775808").as_i64(), Some(i64::MIN));
    assert_eq!(json("-1").as_u64(), None);
    assert!(json("2.0").as_i64().is_none());
}

#[test]
fn a_later_field_replaces_an_earlier_one() {
    let value = Json::object().with("a", json("1")).with("b", json("2")).with("a", json("3"));
    assert_eq!(value, json(r#"{"b":2,"a":3}"#));
    assert_ne!(value, json(r#"{"a":3}"#));
    assert_eq!(text_of(&value), r#"{"a":3,"b":2}"#);
    assert!(value.has_fields() && !Json::object().has_fields() && !json("[1]").has_fields());
    assert_eq!(json("[1]").with("a", json("1")), json("[1]"));
}

#[test]
fn texts_are_joined_and_compared() {
    assert_eq!(joined("ab", "c"), "abc");
    assert!(starts_with("abc", "ab") && starts_with("abc", "") && starts_with("abc", "abc"));
    assert!(!starts_with("abc", "abcd") && !starts_with("abc", "b"));
    assert!(starts_with("\u{e4}\u{f6}", "\u{e4}"));
}

#[test]
fn plain_names_go_on_the_wire_as_they_are() {
    assert_eq!(wire_name(&tool(None, "exec_command", false)), "exec_command");
    assert_eq!(wire_name(&tool(Some("mcp"), "read-file", true)), "mcp__read-file");
    assert_eq!(wire_name(&tool(Some(""), "", false)), "__");
    let longest = "x".repeat(64);
    assert_eq!(wire_name(&tool(None, &longest, false)), longest);
}

/// A tool as `derive` hashes it.
#[derive(Hash)]
struct Hashed {
    name: String,
    namespace: Option<String>,
    custom: bool,
}

#[test]
fn other_names_are_hashed_with_all_of_the_tool() {
    for (namespace, name, custom) in [
        (None, "x".repeat(65), false),
        (None, "a.b".to_owned(), false),
        (None, "a.b".to_owned(), true),
        (Some("n"), "a b".to_owned(), false),
        (Some("\u{fc}"), "a".to_owned(), true),
        (Some("long"), "y".repeat(100), false),
    ] {
        let mut hasher = DefaultHasher::new();
        Hashed { name: name.clone(), namespace: namespace.map(str::to_owned), custom }
            .hash(&mut hasher);
        let alias = wire_name(&tool(namespace, &name, custom));
        assert_eq!(alias, format!("tool_{:016x}", hasher.finish()));
        assert_eq!(alias.len(), 21);
        assert!(alias.bytes().all(|c| c.is_ascii_alphanumeric() || c == b'_'));
    }
}

#[test]
fn registered_tools_are_found_again() {
    let mut table = ToolTable::new();
    let long = tool(Some("n"), &"z".repeat(80), true);
    let alias = register(&mut table, long.clone()).unwrap();
    assert_eq!(register(&mut table, tool(None, "plain", false)), Ok("plain".to_owned()));
    assert!(*table.get(&alias).unwrap() == long);
    assert!(table.get("plain").is_some() && table.get("z").is_none());
    assert!(table.has_prefix("pl") && table.has_prefix("tool_") && !table.has_prefix("x"));
    let copy = table.clone();
    assert_eq!(copy.len(), 2);
}

#[test]
fn contents_are_read_as_text() {
    assert_eq!(text(&json("\"a\"")), Ok("a".to_owned()));
    assert_eq!(
        text(&json(
            r#"[{"type":"input_text","text":"a"},{"type":"output_text","text":"b"},{"type":"text","text":"c"},{"type":"reasoning_text","text":"d"},{"type":"summary_text","text":"e"}]"#
        )),
        Ok("abcde".to_owned())
    );
    assert_eq!(text(&json("[]")), Ok(String::new()));
    assert_eq!(string(&json(r#"{"a":"b"}"#), "a"), Ok("b"));
    assert!(string(&json(r#"{"a":1}"#), "a").is_err());
}

#[test]
fn settings_have_defaults() {
    let plain = settings(&json(r#"{"model":"m","tool_choice":null,"text":{}}"#)).unwrap();
    assert_eq!(
        (plain.tool_choice.as_str(), plain.max_tokens, plain.effort.as_str(), plain.model.as_str()),
        ("auto", None, "high", "m")
    );
}

#[test]
fn a_body_has_all_fields() {
    let (body, tools) = encode(json(
        r#"{"model":"m","max_output_tokens":9,"tool_choice":"none","reasoning":{"effort":"max"},
            "input":[{"type":"message","role":"user","content":"hi"}],
            "tools":[{"type":"function","name":"f"},{"type":"custom","name":"c","description":"d"}]}"#,
    ))
    .unwrap();
    assert_eq!(tools.len(), 2);
    assert_eq!(
        body,
        json(
            r#"{"model":"m","max_tokens":9,"tool_choice":"none","reasoning_effort":"max","stream":true,
            "stream_options":{"include_usage":true},"thinking":{"type":"enabled"},
            "messages":[{"role":"user","content":"hi"}],
            "tools":[
              {"type":"function","function":{"name":"f","description":"","parameters":{"type":"object","properties":{}}}},
              {"type":"function","function":{"name":"c","description":"d","parameters":{"type":"object","properties":{"input":{"type":"string"}},"required":["input"],"additionalProperties":false}}}
            ]}"#
        )
    );
}

#[test]
fn a_chat_request_posts_the_body() {
    let value = json(r#"{"model":"m","input":[]}"#);
    let (opened, tools) = chat_request(value.clone()).unwrap();
    assert_eq!(
        (opened.method, opened.path, opened.accept),
        ("POST", "/chat/completions", "text/event-stream")
    );
    assert_eq!(json(&opened.body), encode(value).unwrap().0);
    assert_eq!(tools.len(), 0);
}

#[test]
fn instructions_that_are_empty_are_left_out() {
    let (body, _) =
        encode(json(r#"{"model":"m","instructions":"","input":[{"type":"agent_message","content":"a"}]}"#))
            .unwrap();
    assert_eq!(*body.field("messages"), json(r#"[{"role":"user","content":"a"}]"#));
}

#[test]
fn reasoning_waits_over_messages_of_the_system() {
    let (body, _) = encode(json(
        r#"{"model":"m","input":[
            {"type":"reasoning","content":[{"type":"reasoning_text","text":"thought"}]},
            {"type":"message","role":"developer","content":"rule"},
            {"type":"message","role":"assistant","content":"said"}]}"#,
    ))
    .unwrap();
    assert_eq!(
        *body.field("messages"),
        json(
            r#"[{"role":"system","content":"rule"},
                {"role":"assistant","content":"said","reasoning_content":"thought"}]"#
        )
    );
}

#[test]
fn calls_join_the_message_before_them() {
    let (body, _) = encode(json(
        r#"{"model":"m","input":[
            {"type":"message","role":"assistant","content":"said"},
            {"type":"custom_tool_call","call_id":"a","name":"c","input":"in"},
            {"type":"custom_tool_call_output","call_id":"a","output":"out"},
            {"type":"function_call","call_id":"a","name":"f","namespace":"n","arguments":"{}"},
            {"type":"function_call_output","call_id":"a","output":[{"type":"input_text","text":"out"}]}]}"#,
    ))
    .unwrap();
    assert_eq!(
        *body.field("messages"),
        json(
            r#"[{"role":"assistant","content":"said","tool_calls":[{"id":"a","type":"function","function":{"name":"c","arguments":"{\"input\":\"in\"}"}}]},
                {"role":"tool","tool_call_id":"a","content":"out"},
                {"role":"assistant","content":"","tool_calls":[{"id":"a","type":"function","function":{"name":"n__f","arguments":"{}"}}]},
                {"role":"tool","tool_call_id":"a","content":"out"}]"#
        )
    );
}

#[test]
fn histories_are_read_step_by_step() {
    let history = History::new(ToolTable::new())
        .say("hello".to_owned())
        .ask(WireCall { id: "a".to_owned(), name: "t".to_owned(), arguments: "{}".to_owned() })
        .unwrap();
    assert_eq!(history.open.len(), 1);
    let history = history
        .answer_with("a", "x".repeat(1024), Some("old".to_owned()))
        .unwrap()
        .hear("user", "go on".to_owned())
        .unwrap();
    let messages = history.settle().unwrap();
    assert_eq!(messages.len(), 3);
    match &messages[1] {
        Message::Tool { call_id, content } => {
            assert_eq!(call_id, "a");
            assert!(content.contains("tool_call_id=old;"));
        }
        other => panic!("{other:?}"),
    }
}

#[test]
fn only_the_same_call_and_output_stand_in_for_a_result() {
    let call = |name: &str, arguments: &str| WireCall {
        id: "id".to_owned(),
        name: name.to_owned(),
        arguments: arguments.to_owned(),
    };
    let sent = SentResult { call: call("a", "{}"), output: "out".to_owned() };
    assert!(can_stand_in(&sent, &call("a", "{}"), "out", 1, 2));
    assert!(!can_stand_in(&sent, &call("a", "{}"), "out", 2, 2));
    assert!(!can_stand_in(&sent, &call("b", "{}"), "out", 1, 2));
    assert!(!can_stand_in(&sent, &call("a", "{ }"), "out", 1, 2));
    assert!(!can_stand_in(&sent, &call("a", "{}"), "other", 1, 2));
}

#[test]
fn custom_input_comes_back_from_its_arguments() {
    for input in ["patch text", "", "quote \" and \\ and \u{1f600}\n"] {
        let arguments = custom_arguments_text(input);
        let call = Call { id: "a".to_owned(), names: Vec::new(), arguments: arguments.clone() };
        let item = call_item(&call, &tool(Some("n"), "c", true), parse(&arguments)).unwrap();
        assert_eq!(
            item,
            ResponseItem::CustomToolCall {
                call_id: "a".to_owned(),
                name: "c".to_owned(),
                namespace: Some("n".to_owned()),
                input: input.to_owned(),
            }
        );
    }
    assert_eq!(custom_arguments_text("x"), r#"{"input":"x"}"#);
}

#[test]
fn names_are_resolved_exactly() {
    let mut table = ToolTable::new();
    register(&mut table, tool(None, "run", false)).unwrap();
    register(&mut table, tool(None, "runrun", false)).unwrap();
    let names = |list: &[&str]| list.iter().map(|name| (*name).to_owned()).collect::<Vec<String>>();
    assert_eq!(resolve(&names(&["ru", "run"]), &table).unwrap().name, "run");
    assert!(resolve(&names(&["ru"]), &table).is_err());
    assert!(resolve(&names(&["run", "runrun"]), &table).is_err());
    assert!(resolve(&names(&[]), &table).is_err());
}

#[test]
fn names_are_put_together_from_any_fragments() {
    let mut table = ToolTable::new();
    register(&mut table, tool(None, "functions__exec", false)).unwrap();
    register(&mut table, tool(None, "functions__edit", false)).unwrap();
    for split in 1.."functions__exec".len() {
        let (first, second) = "functions__exec".split_at(split);
        let mut calls = Calls::new();
        for part in [first, second] {
            let delta = json(r#"{"index":3,"id":"a"}"#)
                .with("function", Json::object().with("name", Json::of_text(part)));
            calls.add_delta(&delta, &table).unwrap();
        }
        assert_eq!(resolve(&calls.get(3).unwrap().names, &table).unwrap().name, "functions__exec");
        assert!(calls.get(0).is_none() && !calls.is_empty());
    }
    let read = fragment(&json(r#"{"index":255,"id":"a","function":{"arguments":"{}"}}"#)).unwrap();
    assert_eq!((read.index, read.id.as_deref(), read.arguments.as_str()), (Some(255), Some("a"), "{}"));
}

#[test]
fn usage_is_counted() {
    assert_eq!(
        token_usage(&json(
            r#"{"prompt_tokens":1,"completion_tokens":2,"total_tokens":3,"cache_write_input_tokens":4,
                "prompt_cache_hit_tokens":5,"completion_tokens_details":{"reasoning_tokens":6},"completion_thinking_tokens":7}"#
        )),
        Some(TokenUsage {
            input_tokens: 1,
            cached_input_tokens: 5,
            cache_write_input_tokens: 4,
            output_tokens: 2,
            reasoning_output_tokens: 6,
            total_tokens: 3,
        })
    );
    assert_eq!(token_usage(&json(r#"{"prompt_tokens":1,"completion_tokens":2}"#)), None);
}

/// The events of these data, with the mark of the end after them.
fn events_of(chunks: &[&str], tools: ToolTable) -> Vec<ResponseEvent> {
    let mut stream = ChatStream::new(tools);
    let mut events = Vec::new();
    for chunk in chunks.iter().chain(["[DONE]"].iter()) {
        let reply = stream.receive(Incoming::Data((*chunk).to_owned()));
        assert_eq!(reply.error, None);
        events.extend(reply.events);
        if reply.done {
            break;
        }
    }
    events
}

#[test]
fn a_completion_reports_everything_in_order() {
    let mut tools = ToolTable::new();
    register(&mut tools, tool(Some("n"), "f", false)).unwrap();
    let call = ResponseItem::FunctionCall {
        call_id: "a".to_owned(),
        name: "f".to_owned(),
        namespace: Some("n".to_owned()),
        arguments: "{}".to_owned(),
    };
    let thought =
        ResponseItem::Reasoning { id: "c-reasoning".to_owned(), content: "why".to_owned() };
    let message = |content: Vec<String>| ResponseItem::Message {
        id: Some("c-message".to_owned()),
        role: "assistant".to_owned(),
        content,
    };
    let events = events_of(
        &[
            r#"{"id":"c","model":"served","choices":[{"index":0,"delta":{"reasoning_content":"why","content":"he"}}]}"#,
            r#"{"choices":[{"index":0,"delta":{"content":"llo","tool_calls":[{"index":7,"id":"a","function":{"name":"n__f","arguments":"{}"}}]},"finish_reason":"tool_calls"}]}"#,
        ],
        tools,
    );
    assert_eq!(
        events,
        vec![
            ResponseEvent::Created { response_id: Some("c".to_owned()) },
            ResponseEvent::ServerModel("served".to_owned()),
            ResponseEvent::OutputItemAdded(message(Vec::new())),
            ResponseEvent::OutputTextDelta("he".to_owned()),
            ResponseEvent::OutputTextDelta("llo".to_owned()),
            ResponseEvent::OutputItemAdded(thought.clone()),
            ResponseEvent::OutputItemDone(thought),
            ResponseEvent::OutputItemAdded(call.clone()),
            ResponseEvent::OutputItemDone(call),
            ResponseEvent::OutputItemDone(message(vec!["hello".to_owned()])),
            ResponseEvent::Completed {
                response_id: "c".to_owned(),
                token_usage: None,
                usage_metadata: None,
                end_turn: Some(false),
            },
        ]
    );
}

#[test]
fn cut_off_completions_say_why() {
    let events = events_of(
        &[
            r#"{"id":"c","choices":[{"index":0,"delta":{},"finish_reason":"length"}],"usage":{"credit":1.25}}"#,
        ],
        ToolTable::new(),
    );
    assert_eq!(
        events.last(),
        Some(&ResponseEvent::Incomplete {
            response_id: "c".to_owned(),
            token_usage: None,
            reason: "CodeBuddy generation reached its output limit (finish_reason=length); no tool calls were executed; CodeBuddy usage: {\"credit\":1.25}".to_owned(),
            kind: IncompleteKind::OutputLimit,
        })
    );
    let events = events_of(&[r#"{"error":{"message":"x"},"id":"e"}"#], ToolTable::new());
    assert_eq!(
        events,
        vec![ResponseEvent::Incomplete {
            response_id: "e".to_owned(),
            token_usage: None,
            reason: r#"CodeBuddy stream error: {"error":{"message":"x"},"id":"e"}"#.to_owned(),
            kind: IncompleteKind::ProviderError,
        }]
    );
}

#[test]
fn a_refused_chunk_leaves_what_was_read_of_it() {
    let mut tools = ToolTable::new();
    register(&mut tools, tool(None, "run", false)).unwrap();
    let mut completion = Completion::new();
    let first = json(r#"{"id":"c","choices":[{"index":0,"delta":{"content":"a"}}]}"#);
    assert_eq!(completion.update(first, &tools).unwrap().len(), 3);
    assert!(completion.update(json(r#"{"id":"d","choices":[]}"#), &tools).is_err());
    assert_eq!((completion.id.as_str(), completion.text.as_str()), ("c", "a"));
    // The texts are taken, and the calls up to the name that nobody advertised.
    let torn = json(
        r#"{"choices":[{"index":0,"finish_reason":"tool_calls","delta":{"content":"b","reasoning_content":"r","tool_calls":[
            {"index":0,"id":"x","function":{"name":"run","arguments":"{"}},
            {"index":1,"id":"y","function":{"name":"other","arguments":"{"}},
            {"index":2,"id":"z"}]}}]}"#,
    );
    assert!(completion.update(torn, &tools).is_err());
    assert_eq!((completion.text.as_str(), completion.reasoning.as_str()), ("ab", "r"));
    assert_eq!(completion.finish.as_deref(), Some("tool_calls"));
    assert_eq!(completion.calls.get(0).unwrap().arguments, "{");
    let refused = completion.calls.get(1).unwrap();
    assert_eq!((refused.id.as_str(), refused.names.len(), refused.arguments.as_str()), ("y", 0, ""));
    assert!(completion.calls.get(2).is_none());
    // A usage report that is refused is kept as it came.
    let usage = json(r#"{"prompt_tokens":-1}"#);
    let report = json(r#"{"choices":[]}"#).with("usage", usage.clone());
    assert!(completion.update(report, &tools).is_err());
    assert_eq!((completion.raw_usage, completion.usage), (Some(usage), None));
}

#[test]
fn a_failed_completion_leaves_a_blank_one() {
    let mut completion = Completion::new();
    let tools = ToolTable::new();
    let first = json(r#"{"id":"c","choices":[{"index":0,"delta":{"content":"a"}}]}"#);
    assert_eq!(completion.update(first.clone(), &tools).unwrap().len(), 3);
    assert_eq!(completion.update(json(r#"{"error":{}}"#), &tools).unwrap().len(), 2);
    assert_eq!((completion.id.as_str(), completion.text.as_str()), ("", ""));
    assert_eq!(completion.update(first, &tools).unwrap().len(), 3);
}

#[test]
fn both_zeros_are_equal() {
    assert_eq!(json("[0.0,{\"a\":-0.0}]"), json("[-0.0,{\"a\":0.0}]"));
    assert_ne!(json("0.0"), json("0"));
    assert_ne!(json("0.5"), json("-0.5"));
    assert_eq!(text_of(&json("-0.0")), "-0.0");
    let whole = |zero: &str| {
        format!(r#"{{"id":"c","choices":[{{"index":0,"message":{{"content":"once","score":{zero}}},"finish_reason":"stop"}}]}}"#)
    };
    let events = events_of(&[&whole("0.0"), &whole("-0.0")], ToolTable::new());
    assert!(matches!(events.last(), Some(ResponseEvent::Completed { .. })));
}

#[test]
fn what_was_thought_before_each_part_of_a_batch_is_kept() {
    let thought = |text: &str| format!(r#"{{"type":"reasoning","content":"{text}"}}"#);
    let call = |id: &str| {
        format!(r#"{{"type":"function_call","call_id":"{id}","name":"t","arguments":"{{}}"}}"#)
    };
    let result =
        |id: &str| format!(r#"{{"type":"function_call_output","call_id":"{id}","output":"x"}}"#);
    let said = r#"{"type":"message","role":"assistant","content":"said"}"#.to_owned();
    let reasoning = |items: &[String]| {
        let (body, _) =
            encode(json(&format!(r#"{{"model":"m","input":[{}]}}"#, items.join(",")))).unwrap();
        let first = &body.field("messages").as_array().unwrap()[0];
        first.field("reasoning_content").as_str().unwrap().to_owned()
    };
    // What is said while a call is open adds its reasoning.
    assert_eq!(
        reasoning(&[thought("one "), call("a"), thought("two"), said.clone(), result("a")]),
        "one two"
    );
    // A call replaces the reasoning before what was last said or called.
    assert_eq!(
        reasoning(&[
            thought("one "),
            call("a"),
            thought("lost"),
            said.clone(),
            thought("two"),
            call("b"),
            result("a"),
            result("b")
        ]),
        "one two"
    );
    assert_eq!(
        reasoning(&[thought("lost"), call("a"), thought("two"), call("b"), result("a"), result("b")]),
        "two"
    );
    assert_eq!(reasoning(&[thought("one"), call("a"), said, result("a")]), "one");
}

#[test]
fn a_repeated_complete_message_counts_once() {
    let whole = r#"{"id":"c","choices":[{"index":0,"message":{"content":"once"},"finish_reason":"stop"}]}"#;
    let events = events_of(&[whole, whole, whole], ToolTable::new());
    let texts: Vec<&ResponseEvent> =
        events.iter().filter(|event| matches!(event, ResponseEvent::OutputTextDelta(_))).collect();
    assert_eq!(texts, vec![&ResponseEvent::OutputTextDelta("once".to_owned())]);
}

#[test]
fn items_are_carried_in_requests() {
    let message = |role: &str| ResponseItem::Message {
        id: None,
        role: role.to_owned(),
        content: vec!["a".to_owned()],
    };
    assert_eq!(
        message("assistant").json(),
        json(r#"{"type":"message","id":null,"role":"assistant","content":[{"type":"output_text","text":"a"}]}"#)
    );
    assert_eq!(
        message("user").json(),
        json(r#"{"type":"message","id":null,"role":"user","content":[{"type":"input_text","text":"a"}]}"#)
    );
    assert_eq!(
        ResponseItem::Reasoning { id: "r".to_owned(), content: "t".to_owned() }.json(),
        json(r#"{"type":"reasoning","id":"r","summary":[],"content":[{"type":"reasoning_text","text":"t"}]}"#)
    );
    let call = ResponseItem::FunctionCall {
        call_id: "a".to_owned(),
        name: "f".to_owned(),
        namespace: None,
        arguments: "{}".to_owned(),
    };
    assert_eq!(
        call.json(),
        json(r#"{"type":"function_call","id":"a","call_id":"a","name":"f","namespace":null,"arguments":"{}","encrypted_function_args":[]}"#)
    );
    assert_eq!(call.clone(), call);
    let output = ResponseItem::FunctionCallOutput { call_id: None, output: "o".to_owned() };
    assert_eq!(output.json(), json(r#"{"type":"function_call_output","call_id":null,"output":"o"}"#));
}

/// What a completion said, thought and called comes back as one message.
#[test]
fn a_completion_is_replayed_whole() {
    let request = r#"{"model":"m","input":[{"type":"message","role":"user","content":"go"}],
        "tools":[{"type":"namespace","name":"n","tools":[{"type":"function","name":"f"},{"type":"custom","name":"c"}]}]}"#;
    let (_, tools) = encode(json(request)).unwrap();
    let events = events_of(
        &[
            r#"{"id":"c","choices":[{"index":0,"delta":{"reasoning_content":"why","content":"said","tool_calls":[{"index":0,"id":"a","function":{"name":"n__f","arguments":"{ }"}},{"index":1,"id":"b","function":{"name":"n__c","arguments":"{\"input\": \"x\"}"}}]},"finish_reason":"tool_calls"}]}"#,
        ],
        tools,
    );
    let mut input = json(request).field("input").as_array().unwrap().clone();
    input.extend(events.iter().filter_map(|event| match event {
        ResponseEvent::OutputItemDone(item) => Some(item.json()),
        _ => None,
    }));
    for id in ["b", "a"] {
        input.push(
            ResponseItem::FunctionCallOutput { call_id: Some(id.to_owned()), output: id.to_owned() }
                .json(),
        );
    }
    let (body, _) = encode(json(request).with("input", Json::Array(input))).unwrap();
    assert_eq!(
        *body.field("messages"),
        json(
            r#"[{"role":"user","content":"go"},
                {"role":"assistant","content":"said","reasoning_content":"why","tool_calls":[
                    {"id":"a","type":"function","function":{"name":"n__f","arguments":"{ }"}},
                    {"id":"b","type":"function","function":{"name":"n__c","arguments":"{\"input\":\"x\"}"}}]},
                {"role":"tool","tool_call_id":"b","content":"b"},
                {"role":"tool","tool_call_id":"a","content":"a"}]"#
        )
    );
}

#[test]
fn cut_off_thoughts_are_replayed_once_for_each_continuation() {
    let notice = OutputLimitRecovery;
    let (before, after) = notice.markers();
    let recovery = ResponseItem::Message {
        id: None,
        role: notice.role().to_owned(),
        content: vec![format!("{before}{}{after}", notice.body())],
    };
    let request = json(r#"{"model":"m","reasoning":{"effort":"high"}}"#);
    let mut input = vec![json(r#"{"type":"message","role":"user","content":"Write the report"}"#)];
    for count in 0..3 {
        let (body, _) = encode(request.clone().with("input", Json::Array(input.clone()))).unwrap();
        let messages = body.field("messages").as_array().unwrap();
        let with = |found: &dyn Fn(&Json) -> bool| messages.iter().filter(|m| found(m)).count();
        assert_eq!(
            with(&|m| m.field("content").as_str().unwrap().contains("<output_limit_recovery>")),
            count
        );
        assert_eq!(
            with(&|m| m.field("reasoning_content").as_str() == Some("Partial plan")),
            count
        );
        let events = events_of(
            &[
                r#"{"id":"limited","choices":[{"index":0,"delta":{"reasoning_content":"Partial plan"},"finish_reason":"length"}]}"#,
            ],
            ToolTable::new(),
        );
        input.extend(events.iter().filter_map(|event| match event {
            ResponseEvent::OutputItemDone(item) => Some(item.json()),
            _ => None,
        }));
        input.push(recovery.json());
    }
}

#[test]
fn the_recovery_notice_is_marked() {
    let notice = OutputLimitRecovery;
    assert_eq!(notice.content_kind(), "recovery.output_limit");
    assert_eq!(notice.role(), "user");
    assert_eq!(notice.markers(), ("<output_limit_recovery>", "</output_limit_recovery>"));
    assert_eq!(OutputLimitRecovery::type_markers(), notice.markers());
    assert_eq!(
        notice.body(),
        "The previous response was truncated by the output limit. Its tool calls were discarded and were not executed. Continue the task from the existing context with shorter reasoning and smaller, complete tool calls. Split large writes or edits into bounded steps. Do not repeat completed work."
    );
}
