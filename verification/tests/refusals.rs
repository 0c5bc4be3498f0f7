//! What is refused, and in which words.

use codebuddy_chat::error::{invalid, ApiError};
use codebuddy_chat::json::Json;
use codebuddy_chat::request::encode;
use codebuddy_chat::stream::{chat_request, ChatStream, Incoming};
use codebuddy_chat::tools::{register, Tool, ToolTable};
use codebuddy_chat::wire::parse;

fn refused(message: &str) -> ApiError {
    ApiError::InvalidRequest { message: format!("CodeBuddy Chat: {message}") }
}

#[test]
fn refusals_name_the_adapter() {
    assert_eq!(
        invalid("empty tool name"),
        ApiError::InvalidRequest { message: "CodeBuddy Chat: empty tool name".to_owned() }
    );
}

/// Why a request is refused.
fn why(request: &str) -> ApiError {
    let error = encode(parse(request).unwrap()).unwrap_err();
    assert_eq!(chat_request(parse(request).unwrap()).unwrap_err(), error);
    error
}

#[test]
fn tools_that_cannot_be_declared_are_refused() {
    for (tools, message) in [
        (r#"[{"type":"web_search"}]"#, "only function and custom tools are supported"),
        (r#"[{"type":"function"}]"#, "missing string field name"),
        (r#"[{"type":"function","name":""}]"#, "empty tool name"),
        (r#"[{"type":"namespace","tools":[]}]"#, "missing string field name"),
        (r#"[{"type":"namespace","name":"n"}]"#, "namespace lacks tools"),
        (
            r#"[{"type":"namespace","name":"n","tools":[{"type":"namespace","name":"m","tools":[]}]}]"#,
            "only function and custom tools are supported",
        ),
        (
            r#"[{"type":"function","name":"n__a"},{"type":"namespace","name":"n","tools":[{"type":"function","name":"a"}]}]"#,
            "flattened tool names collide",
        ),
        (
            r#"[{"type":"function","name":"a"},{"type":"custom","name":"a"}]"#,
            "flattened tool names collide",
        ),
        (
            r#"[{"type":"function","name":"a"},{"type":"function","name":"a","description":"b"}]"#,
            "conflicting definitions of one tool",
        ),
    ] {
        assert_eq!(why(&format!(r#"{{"model":"m","input":[],"tools":{tools}}}"#)), refused(message));
    }
}

#[test]
fn histories_that_cannot_be_told_are_refused() {
    let call = r#"{"type":"function_call","call_id":"a","name":"t","arguments":"{}"}"#;
    let other = r#"{"type":"function_call","call_id":"b","name":"t","arguments":"{}"}"#;
    let result = r#"{"type":"function_call_output","call_id":"a","output":"x"}"#;
    for (items, message) in [
        (
            r#"{"type":"message","role":"user","content":7}"#.to_owned(),
            "expected text content",
        ),
        (
            r#"{"type":"message","role":"user","content":[{"type":"input_audio"}]}"#.to_owned(),
            "non-text or encrypted content is unsupported; use plaintext task handoffs",
        ),
        (
            r#"{"type":"message","role":"user","content":[{"type":"text"}]}"#.to_owned(),
            "missing string field text",
        ),
        (r#"{"type":"message","content":"x"}"#.to_owned(), "missing string field role"),
        (
            r#"{"type":"message","role":"tool","content":"x"}"#.to_owned(),
            "unsupported message role",
        ),
        (
            r#"{"type":"reasoning","content":"x","encrypted_content":"y"}"#.to_owned(),
            "encrypted reasoning cannot cross providers; start without inherited history",
        ),
        (
            r#"{"type":"reasoning","content":"x"}"#.to_owned(),
            "reasoning without an assistant message",
        ),
        (r#"{"type":"reasoning"}"#.to_owned(), "expected text content"),
        (
            r#"{"type":"reasoning","content":null,"summary":[{"type":"image"}]}"#.to_owned(),
            "non-text or encrypted content is unsupported; use plaintext task handoffs",
        ),
        (
            r#"{"type":"function_call","call_id":"a","name":"t","arguments":"{}","encrypted_function_args":["x"]}"#.to_owned(),
            "encrypted tool arguments are unsupported",
        ),
        (
            r#"{"type":"function_call","call_id":"a","arguments":"{}"}"#.to_owned(),
            "missing string field name",
        ),
        (
            r#"{"type":"function_call","call_id":"a","name":"t"}"#.to_owned(),
            "missing string field arguments",
        ),
        (
            r#"{"type":"custom_tool_call","call_id":"a","name":"t"}"#.to_owned(),
            "missing string field input",
        ),
        (
            r#"{"type":"function_call","name":"t","arguments":"{}"}"#.to_owned(),
            "missing string field call_id",
        ),
        (
            format!(r#"{call},{{"type":"custom_tool_call","call_id":"b","name":"t","input":""}}"#),
            "flattened tool names collide",
        ),
        (
            r#"{"type":"function_call_output","output":"x"}"#.to_owned(),
            "missing string field call_id",
        ),
        (
            format!(r#"{call},{{"type":"message","role":"user","content":"x"}},{result}"#),
            "a message interrupts a batch of tool calls",
        ),
        (
            format!("{call},{other},{result},{call}"),
            "a tool call interrupts a batch of results",
        ),
        (format!("{call},{call}"), "duplicate tool call ID in history"),
        (result.to_owned(), "tool result without a pending call"),
        (call.to_owned(), "tool calls without results"),
        (
            r#"{"type":"local_shell_call"}"#.to_owned(),
            "unsupported history item; start without inherited history",
        ),
        (
            r#"{"type":"additional_tools"}"#.to_owned(),
            "unsupported history item; start without inherited history",
        ),
        ("null".to_owned(), "unsupported history item; start without inherited history"),
    ] {
        assert_eq!(
            why(&format!(r#"{{"model":"m","input":[{items}]}}"#)),
            refused(message),
            "{items}"
        );
    }
}

#[test]
fn settings_that_the_provider_lacks_are_refused() {
    for (fields, message) in [
        (r#""input":[]"#, "missing string field model"),
        (r#""model":"m""#, "input must be an array"),
        (r#""model":"m","input":"x""#, "input must be an array"),
        (
            r#""model":"m","input":[],"text":{"format":{"type":"json_schema"}}"#,
            "structured response formats are not supported yet",
        ),
        (
            r#""model":"m","input":[],"tool_choice":"exec""#,
            "named tool_choice is not supported by CodeBuddy; use auto, none, or required",
        ),
        (
            r#""model":"m","input":[],"tool_choice":{"type":"function"}"#,
            "named tool_choice is not supported by CodeBuddy; use auto, none, or required",
        ),
        (
            r#""model":"m","input":[],"max_tokens":0"#,
            "output budgets must be positive integers",
        ),
        (
            r#""model":"m","input":[],"max_tokens":1,"max_completion_tokens":2"#,
            "conflicting output budgets",
        ),
        (
            r#""model":"m","input":[],"reasoning":{"effort":"low"}"#,
            "this adapter currently supports only high or max reasoning",
        ),
    ] {
        assert_eq!(why(&format!("{{{fields}}}")), refused(message));
    }
}

#[test]
fn registering_refuses_what_has_no_name_of_its_own() {
    let tool = |name: &str, custom: bool| Tool { name: name.to_owned(), namespace: None, custom };
    let mut table = ToolTable::new();
    assert_eq!(register(&mut table, tool("", false)), Err(refused("empty tool name")));
    assert_eq!(table.len(), 0);
    assert_eq!(register(&mut table, tool("a", false)), Ok("a".to_owned()));
    assert_eq!(register(&mut table, tool("a", false)), Ok("a".to_owned()));
    assert_eq!(register(&mut table, tool("a", true)), Err(refused("flattened tool names collide")));
    assert_eq!(table.len(), 1);
}

fn tools() -> ToolTable {
    let request = r#"{"model":"m","input":[],"tools":[
        {"type":"function","name":"run"},{"type":"function","name":"runrun"},{"type":"custom","name":"patch"}]}"#;
    encode(parse(request).unwrap()).unwrap().1
}

/// The error that chunks lead to, the mark of the end after them.
fn error_of(chunks: &[&str]) -> ApiError {
    let mut stream = ChatStream::new(tools());
    for chunk in chunks {
        let reply = stream.receive(Incoming::Data((*chunk).to_owned()));
        if let Some(error) = reply.error {
            assert!(reply.done && reply.events.is_empty());
            return error;
        }
    }
    let reply = stream.receive(Incoming::Data("[DONE]".to_owned()));
    assert!(reply.done && reply.events.is_empty());
    reply.error.unwrap()
}

/// The error that one delta leads to.
fn error_of_delta(delta: &str) -> ApiError {
    error_of(&[&format!(r#"{{"id":"c","choices":[{{"index":0,"delta":{delta}}}]}}"#)])
}

/// The error that call fragments lead to.
fn error_of_calls(calls: &str) -> ApiError {
    error_of(&[&format!(
        r#"{{"id":"c","choices":[{{"index":0,"delta":{{"tool_calls":[{calls}]}},"finish_reason":"tool_calls"}}]}}"#
    )])
}

#[test]
fn chunks_that_make_no_sense_are_refused() {
    assert_eq!(error_of(&["{"]), refused("invalid stream JSON"));
    assert_eq!(error_of(&["{}"]), refused("stream lacks completion ID"));
    assert_eq!(error_of(&[r#"{"id":"","choices":[]}"#]), refused("stream lacks completion ID"));
    assert_eq!(error_of(&[r#"{"id":"c"}"#]), refused("stream lacks choices"));
    assert_eq!(
        error_of(&[r#"{"id":"c","choices":[]}"#, r#"{"id":7,"choices":[]}"#]),
        refused("completion ID changed mid-stream")
    );
    assert_eq!(
        error_of(&[r#"{"id":"c","choices":[{"index":1,"delta":{}}]}"#]),
        refused("multiple completion choices are unsupported")
    );
    assert_eq!(
        error_of(&[r#"{"id":"c","choices":[],"usage":{"prompt_tokens":-1}}"#]),
        refused("usage counters must be non-negative integers")
    );
    assert_eq!(
        error_of(&[r#"{"error":{"code":"context_length_exceeded"}}"#]),
        ApiError::ContextWindowExceeded
    );
}

#[test]
fn contents_that_make_no_sense_are_refused() {
    assert_eq!(error_of_delta(r#"{"content":7}"#), refused("message text fields must be strings"));
    assert_eq!(error_of_delta(r#"{"tool_calls":{}}"#), refused("tool_calls must be an array"));
    assert_eq!(error_of_delta(r#"{"refusal":"no"}"#), refused("upstream refused this request"));
    let whole = r#"{"id":"c","choices":[{"index":0,"message":{"content":"a"}}]}"#;
    let part = r#"{"id":"c","choices":[{"index":0,"delta":{"content":"a"}}]}"#;
    assert_eq!(
        error_of(&[part, whole]),
        refused("conflicting complete message and incremental content")
    );
    assert_eq!(
        error_of(&[r#"{"id":"c","choices":[{"index":0,"message":"a"}]}"#]),
        refused("conflicting complete message and incremental content")
    );
    assert_eq!(
        error_of(&[r#"{"id":"c","choices":[{"index":0,"message":{},"delta":{"role":"x"}}]}"#]),
        refused("choice contains both message and delta")
    );
    assert_eq!(
        error_of(&[whole, r#"{"id":"c","choices":[{"index":0,"message":{"content":"b"}}]}"#]),
        refused("complete message changed mid-stream")
    );
    assert_eq!(
        error_of(&[whole, part]),
        refused("incremental content follows a complete message")
    );
    assert_eq!(
        error_of(&[r#"{"id":"c","choices":[{"index":0,"message":{"tool_calls":[7]}}]}"#]),
        refused("invalid complete tool call")
    );
}

#[test]
fn calls_that_make_no_sense_are_refused() {
    for (calls, message) in [
        (
            r#"{"index":0,"function":{"name":7}}"#,
            "tool name and argument fragments must be strings",
        ),
        (r#"{"index":0,"id":""}"#, "invalid tool call ID"),
        (r#"{"index":0,"id":7}"#, "invalid tool call ID"),
        (r#"{"index":256}"#, "invalid tool call index"),
        (r#"{"index":null}"#, "invalid tool call index"),
        (r#"{"function":{}}"#, "tool fragment lacks a known ID or index"),
        (r#"{"id":"a"}"#, "tool fragment lacks a known ID or index"),
        (r#"{"index":0,"id":"a"},{"index":1,"id":"a"}"#, "tool call ID belongs to a different index"),
        (r#"{"index":0,"id":"a"},{"index":0,"id":"b"}"#, "tool call ID changed mid-stream"),
        (r#"{"index":0,"function":{"name":"x"}}"#, "unadvertised tool name fragments"),
        (
            r#"{"index":0,"function":{"name":"run","arguments":"{}"}}"#,
            "missing or duplicate tool call ID",
        ),
        (
            r#"{"index":0,"id":"a","function":{"name":"pat","arguments":"{}"}}"#,
            "upstream requested an unadvertised tool",
        ),
        (
            r#"{"index":0,"id":"a","function":{"name":"run","arguments":"{}"}},{"index":0,"function":{"name":"run"}}"#,
            "ambiguous repeated tool name",
        ),
        (
            r#"{"index":0,"id":"a","function":{"name":"runrun","arguments":"{"}}"#,
            "invalid tool argument JSON",
        ),
        (
            r#"{"index":0,"id":"a","function":{"name":"patch","arguments":"{\"input\":7}"}}"#,
            "custom tool requires a string input",
        ),
    ] {
        assert_eq!(error_of_calls(calls), refused(message), "{calls}");
    }
}

#[test]
fn completions_that_end_otherwise_are_refused() {
    let unfinished = refused("incomplete or unsupported finish reason; no tool calls were executed");
    assert_eq!(error_of(&[]), unfinished);
    assert_eq!(error_of_delta(r#"{"content":"a"}"#), unfinished);
    for end in ["content_filter", "error", "tool_calls"] {
        let chunk = format!(r#"{{"id":"c","choices":[{{"index":0,"delta":{{}},"finish_reason":"{end}"}}]}}"#);
        assert_eq!(error_of(&[&chunk]), unfinished);
    }
    let stopped_in_a_call = r#"{"id":"c","choices":[{"index":0,"delta":{"tool_calls":[{"index":0,"id":"a","function":{"name":"runrun","arguments":"{}"}}]},"finish_reason":"stop"}]}"#;
    assert_eq!(error_of(&[stopped_in_a_call]), unfinished);
}

#[test]
fn streams_that_break_off_report_it() {
    for (incoming, message) in [
        (Incoming::TimedOut, "CodeBuddy stream idle timeout"),
        (Incoming::Ended, "CodeBuddy stream ended without [DONE]"),
        (Incoming::Malformed, "invalid CodeBuddy event stream"),
    ] {
        let mut stream = ChatStream::new(tools());
        let first = r#"{"id":"c","choices":[{"index":0,"delta":{"content":"a"}}]}"#;
        assert!(!stream.receive(Incoming::Data(first.to_owned())).done);
        let reply = stream.receive(incoming);
        assert!(reply.done && reply.events.is_empty());
        assert_eq!(reply.error, Some(ApiError::Stream(message.to_owned())));
    }
}

#[test]
fn data_is_limited_to_sixteen_mebibytes() {
    let limit: usize = 16 * 1024 * 1024;
    let frame = r#"{"id":"c","choices":[],"x":""}"#.len();
    let chunk = |size: usize| format!(r#"{{"id":"c","choices":[],"x":"{}"}}"#, "x".repeat(size - frame));
    let mut stream = ChatStream::new(tools());
    assert!(!stream.receive(Incoming::Data(chunk(limit - frame))).done);
    assert!(!stream.receive(Incoming::Data(chunk(frame))).done);
    let reply = stream.receive(Incoming::Data("{}".to_owned()));
    assert_eq!(reply.error, Some(refused("completion exceeds 16 MiB adapter limit")));
    assert!(reply.done);
}

#[test]
fn a_chunk_that_was_not_read_is_refused_by_itself() {
    let mut stream = ChatStream::new(tools());
    let reply = stream.receive_chunk(None);
    assert_eq!(reply.error, Some(refused("invalid stream JSON")));
    let reply = stream.receive_chunk(Some(Json::object().with("id", Json::of_text("c"))));
    assert_eq!(reply.error, Some(refused("stream lacks choices")));
}
