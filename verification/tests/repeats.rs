//! Results that repeat earlier ones.

use codebuddy_chat::json::Json;
use codebuddy_chat::request::encode;
use codebuddy_chat::wire::{parse, text_of};

fn json(text: &str) -> Json {
    parse(text).unwrap()
}

fn call(name: &str, id: &str, arguments: &str) -> Json {
    json(r#"{"type":"function_call"}"#)
        .with("name", Json::of_text(name))
        .with("call_id", Json::of_text(id))
        .with("arguments", Json::of_text(arguments))
}

fn output(id: &str, text: &str) -> Json {
    json(r#"{"type":"function_call_output"}"#)
        .with("call_id", Json::of_text(id))
        .with("output", Json::of_text(text))
}

fn content(body: &Json, index: usize) -> &str {
    body.field("messages").as_array().unwrap()[index].field("content").as_str().unwrap()
}

#[test]
fn folds_only_exact_repeated_large_results_and_keeps_a_verbatim_target() {
    let evidence = "same evidence\n".repeat(200);
    let changed = format!("{evidence}changed");
    let mut input = Vec::new();
    for (id, name, arguments, text) in [
        ("old", "exec_command", "{\"cmd\":\"cat a\"}", &evidence),
        ("different-command", "exec_command", "{\"cmd\":\"cat b\"}", &evidence),
        ("different-tool", "read_file", "{\"cmd\":\"cat a\"}", &evidence),
        ("changed", "exec_command", "{\"cmd\":\"cat a\"}", &changed),
        ("new", "exec_command", "{\"cmd\":\"cat a\"}", &evidence),
    ] {
        input.push(call(name, id, arguments));
        input.push(output(id, text));
    }
    let request = json(r#"{"model":"deepseek-v4.1-flash","reasoning":{"effort":"max"}}"#)
        .with("input", Json::Array(input.clone()));
    let original = request.clone();
    let (body, _) = encode(request.clone()).unwrap();
    assert_eq!(request, original);
    let messages = body.field("messages").as_array().unwrap();
    assert_eq!(content(&body, 1), evidence);
    let repeated = content(&body, 9);
    assert!(repeated.contains("tool_call_id=old"));
    assert!(repeated.len() < evidence.len());
    assert_eq!(content(&body, 3), evidence);
    assert_eq!(content(&body, 5), evidence);
    assert_eq!(content(&body, 7), changed);
    assert_eq!(body.field("reasoning_effort").as_str(), Some("max"));
    assert!(text_of(&body).len() < text_of(&original).len());
    input.push(call("exec_command", "third", "{\"cmd\":\"cat a\"}"));
    input.push(output("third", &evidence));
    let (appended, _) = encode(request.with("input", Json::Array(input))).unwrap();
    assert_eq!(
        &appended.field("messages").as_array().unwrap()[..messages.len()],
        messages.as_slice()
    );
}

#[test]
fn repeated_small_results_remain_verbatim() {
    let request = json(
        r#"{"model":"deepseek-v4.1-flash","input":[
        {"type":"function_call","name":"exec_command","call_id":"a","arguments":"{}"},
        {"type":"function_call_output","call_id":"a","output":"ok"},
        {"type":"function_call","name":"exec_command","call_id":"b","arguments":"{}"},
        {"type":"function_call_output","call_id":"b","output":"ok"}
    ]}"#,
    );
    let (body, _) = encode(request).unwrap();
    assert_eq!(content(&body, 1), "ok");
    assert_eq!(content(&body, 3), "ok");
}

#[test]
fn references_must_shrink_the_json_encoded_payload() {
    let escaped_id = "\n".repeat(600);
    let text = "x".repeat(1024);
    let request = json(r#"{"model":"deepseek-v4.1-flash"}"#).with(
        "input",
        Json::Array(vec![
            call("exec_command", &escaped_id, "{}"),
            output(&escaped_id, &text),
            call("exec_command", "new", "{}"),
            output("new", &text),
        ]),
    );
    let (body, _) = encode(request).unwrap();
    assert_eq!(content(&body, 1), text);
    assert_eq!(content(&body, 3), text);
}

#[test]
fn the_smallest_large_result_is_named_and_one_byte_less_is_repeated() {
    for (size, named) in [(1023, false), (1024, true)] {
        let text = "x".repeat(size);
        let request = json(r#"{"model":"m"}"#).with(
            "input",
            Json::Array(vec![
                call("read", "first", "{}"),
                output("first", &text),
                call("read", "second", "{}"),
                output("second", &text),
            ]),
        );
        let (body, _) = encode(request).unwrap();
        if named {
            assert_eq!(
                content(&body, 3),
                "[Identical to the result of the same call with tool_call_id=first; not repeated]"
            );
        } else {
            assert_eq!(content(&body, 3), text);
        }
    }
}

#[test]
fn a_reference_is_never_the_target_of_another() {
    let text = "y".repeat(2000);
    let mut input = Vec::new();
    for id in ["one", "two", "three"] {
        input.push(call("read", id, "{}"));
        input.push(output(id, &text));
    }
    let request = json(r#"{"model":"m"}"#).with("input", Json::Array(input));
    let (body, _) = encode(request).unwrap();
    assert_eq!(content(&body, 1), text);
    assert!(content(&body, 3).contains("tool_call_id=one;"));
    assert!(content(&body, 5).contains("tool_call_id=one;"));
}
