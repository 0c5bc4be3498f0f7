//! What a refusal says.

use vstd::prelude::*;

use crate::calls::{with_delta, CallView};
use crate::completion::CompletionView;
use crate::dispatch::dispatched_call;
use crate::error::ErrorView;
use crate::history::{call_position, text_view, HistoryView};
use crate::json::JsonView;
use crate::laws::acceptance::{asks_for_what_there_is, is_budget, is_readable, is_written, lemma_readable};
use crate::laws::chunks::{list_in, text_in};
use crate::laws::completion::calls_hold;
use crate::laws::conversation::{heard, is_called, is_result, tool_called};
use crate::laws::history::lemma_kinds;
use crate::laws::intake::{is_plain_content, is_text_at_most};
use crate::laws::outcome::counts_hold;
use crate::request::{settings_view, DeclaredView};
use crate::stream::{reply_view, IncomingView};
use crate::tools::{alias, ToolView};
use crate::wire::parsed;

verus! {

/// Whether an outcome is the refusal with that explanation.
pub open spec fn says<T>(outcome: Result<T, ErrorView>, explanation: Seq<char>) -> bool {
    outcome == Err::<T, ErrorView>(ErrorView::InvalidRequest("CodeBuddy Chat: "@ + explanation))
}

/// Whether all fields of a call are there.
pub open spec fn is_whole_call(item: JsonView) -> bool {
    &&& is_called(item)
    &&& list_in(item.field("encrypted_function_args"@)).len() == 0
    &&& item.field("name"@) is Text
    &&& item.field("call_id"@) is Text
    &&& if tool_called(item).custom {
        item.field("input"@) is Text
    } else {
        item.field("arguments"@) is Text
    }
}

/// An item of a history that is refused is refused with the reason.
pub proof fn refused_items_are_explained(history: HistoryView, item: JsonView)
    ensures
        ({
            let kind = item.field("type"@);
            let id = text_in(item.field("call_id"@));
            let outcome = history.read(item);
            let waits = call_position(history.open, id) is Some;
            &&& heard(item) is Some && is_readable(item.field("content"@)) && history.open.len() > 0 ==> says(
                outcome,
                "a message interrupts a batch of tool calls"@,
            )
            &&& kind == JsonView::Text("message"@) && heard(item) is None && item.field("role"@) is Text
                && item.field("role"@) != JsonView::Text("assistant"@) ==> says(outcome, "unsupported message role"@)
            &&& kind == JsonView::Text("reasoning"@) && !(item.field("encrypted_content"@) is Null) ==> says(
                outcome,
                "encrypted reasoning cannot cross providers; start without inherited history"@,
            )
            &&& is_called(item) && list_in(item.field("encrypted_function_args"@)).len() > 0 ==> says(
                outcome,
                "encrypted tool arguments are unsupported"@,
            )
            &&& is_whole_call(item) && tool_called(item).namespace is None && tool_called(item).name.len() == 0
                ==> says(outcome, "empty tool name"@)
            &&& is_result(item) && item.field("call_id"@) is Text && is_readable(item.field("output"@)) && !waits
                ==> says(outcome, "tool result without a pending call"@)
            &&& heard(item) is Some && !is_readable(item.field("content"@)) && !(item.field("content"@) is Array)
                ==> says(outcome, "expected text content"@)
            &&& (kind matches JsonView::Text(kind) ==> {
                &&& kind != "reasoning"@
                &&& kind != "message"@
                &&& kind != "agent_message"@
                &&& kind != "function_call"@
                &&& kind != "custom_tool_call"@
                &&& kind != "function_call_output"@
                &&& kind != "custom_tool_call_output"@
                &&& kind != "additional_tools"@
            }) ==> says(outcome, "unsupported history item; start without inherited history"@)
        }),
{
    lemma_kinds();
    reveal_strlit("user");
    reveal_strlit("system");
    reveal_strlit("developer");
    reveal_strlit("assistant");
    assert("user"@.len() == 4 && "system"@.len() == 6 && "developer"@.len() == 9 && "assistant"@.len() == 9);
    assert("developer"@[0] != "assistant"@[0]);
    lemma_readable(item.field("content"@));
    lemma_readable(item.field("output"@));
}

/// A call that cannot be made where it stands is refused with the reason.
pub proof fn refused_calls_are_explained(history: HistoryView, item: JsonView)
    requires
        is_whole_call(item),
        tool_called(item).namespace is Some || tool_called(item).name.len() > 0,
    ensures
        ({
            let outcome = history.read(item);
            let name = alias(tool_called(item));
            let taken = history.table.dom().contains(name) && history.table[name] != tool_called(item);
            let interrupts = history.open.len() > 0 && !history.assistant_last();
            let waits = call_position(history.open, text_in(item.field("call_id"@))) is Some;
            &&& taken ==> says(outcome, "flattened tool names collide"@)
            &&& !taken && interrupts ==> says(outcome, "a tool call interrupts a batch of results"@)
            &&& !taken && !interrupts && waits ==> says(outcome, "duplicate tool call ID in history"@)
            &&& !taken && !interrupts && !waits ==> outcome is Ok
        }),
{
    lemma_kinds();
    reveal_strlit("__");
    assert("__"@.len() == 2);
}

/// A history that is not complete is refused with the reason.
pub proof fn unfinished_histories_are_explained(history: HistoryView)
    ensures
        history.open.len() > 0 ==> says(history.settled(), "tool calls without results"@),
        history.open.len() == 0 && history.reasoning.len() > 0 ==> says(
            history.settled(),
            "reasoning without an assistant message"@,
        ),
{
}

/// A content with a part that has no text is refused with the reason: the part is of
/// another kind, or its text is missing.
pub proof fn unreadable_parts_are_explained(parts: Seq<JsonView>, part: JsonView)
    requires
        is_readable(JsonView::Array(parts)),
        !is_written(part),
    ensures
        ({
            let outcome = text_view(JsonView::Array(parts.push(part)));
            if crate::history::is_text_part(part) {
                says(outcome, "missing string field "@ + "text"@)
            } else {
                says(outcome, "non-text or encrypted content is unsupported; use plaintext task handoffs"@)
            }
        }),
{
    lemma_readable(JsonView::Array(parts));
    assert(parts.push(part).drop_last() =~= parts);
}

/// A request that asks for what there is not is refused with the reason.
pub proof fn refused_settings_are_explained(request: JsonView)
    ensures
        ({
            let outcome = settings_view(request);
            let choice = request.field("tool_choice"@);
            let effort = request.field("reasoning"@).field("effort"@);
            let formatted = !(request.field("text"@).field("format"@) is Null);
            let chooses = choice is Null || choice == JsonView::Text("auto"@) || choice == JsonView::Text("none"@)
                || choice == JsonView::Text("required"@);
            let budgets = is_budget(request, "max_output_tokens"@) && is_budget(request, "max_completion_tokens"@)
                && is_budget(request, "max_tokens"@);
            let thinks = effort is Text ==> effort == JsonView::Text("high"@) || effort == JsonView::Text("max"@);
            &&& formatted ==> says(outcome, "structured response formats are not supported yet"@)
            &&& !formatted && !chooses ==> says(
                outcome,
                "named tool_choice is not supported by CodeBuddy; use auto, none, or required"@,
            )
            &&& !formatted && chooses && !budgets ==> says(outcome, "output budgets must be positive integers"@)
                || says(outcome, "conflicting output budgets"@)
            &&& !formatted && chooses && budgets && thinks && request.field("model"@) is Text
                && !asks_for_what_there_is(request) ==> says(outcome, "conflicting output budgets"@)
            &&& !formatted && chooses && !request.has("max_output_tokens"@) && !request.has(
                "max_completion_tokens"@,
            ) && !request.has("max_tokens"@) ==> {
                &&& !thinks ==> says(outcome, "this adapter currently supports only high or max reasoning"@)
                &&& thinks && !(request.field("model"@) is Text) ==> says(
                    outcome,
                    "missing string field "@ + "model"@,
                )
            }
        }),
{
}

/// A fragment of a call that is refused is refused with the reason.
pub proof fn refused_fragments_are_explained(
    calls: Map<int, CallView>,
    delta: JsonView,
    index: int,
    tools: Map<Seq<char>, ToolView>,
)
    requires
        calls_hold(calls),
    ensures
        ({
            let outcome = with_delta(calls, delta, tools).1;
            let function = delta.field("function"@);
            let id = delta.field("id"@);
            let texts = is_text_at_most(function.field("name"@)) && is_text_at_most(function.field("arguments"@));
            let named = id is Null || text_in(id).len() > 0;
            let indexed = delta.field("index"@) == JsonView::Integer(index) && 0 <= index < 256;
            &&& !texts ==> says(outcome, "tool name and argument fragments must be strings"@)
            &&& texts && !named ==> says(outcome, "invalid tool call ID"@)
            &&& texts && named && delta.has("index"@) && !(delta.field("index"@) matches JsonView::Integer(n) && 0 <= n
                < 256) ==> says(outcome, "invalid tool call index"@)
            &&& texts && !delta.has("index"@) && id is Null ==> says(
                outcome,
                "tool fragment lacks a known ID or index"@,
            )
            &&& texts && named && indexed && id is Text && (exists|other: int| #[trigger]
                calls.dom().contains(other) && other != index && calls[other].id == text_in(id)) ==> says(
                outcome,
                "tool call ID belongs to a different index"@,
            )
            &&& texts && named && indexed && id is Text && calls.dom().contains(index) && calls[index].id.len() > 0
                && calls[index].id != text_in(id) && (forall|other: int| #[trigger]
                calls.dom().contains(other) && other != index ==> calls[other].id != text_in(id)) ==> says(
                outcome,
                "tool call ID changed mid-stream"@,
            )
            &&& texts && indexed && id is Null && text_in(function.field("name"@)).len() > 0 && outcome is Err ==> says(
                outcome,
                "unadvertised tool name fragments"@,
            )
        }),
{
    if let JsonView::Text(id) = delta.field("id"@) {
        if id.len() == 0 {
            assert(id =~= Seq::empty());
        }
    }
}

/// A choice that is refused is refused with the reason.
pub proof fn refused_choices_are_explained(completion: CompletionView, choice: JsonView, tools: Map<Seq<char>, ToolView>)
    ensures
        ({
            let outcome = completion.with_choice(choice, tools).1;
            let delta = choice.field("delta"@);
            let message = choice.field("message"@);
            let first = choice.field("index"@) == JsonView::Integer(0);
            let texts = is_text_at_most(delta.field("content"@)) && is_text_at_most(
                delta.field("reasoning_content"@),
            ) && is_text_at_most(delta.field("refusal"@));
            let listed = delta.field("tool_calls"@) is Null || delta.field("tool_calls"@) is Array;
            let brings = crate::laws::intake::brings_content(delta);
            let alone = forall|name: Seq<char>| !#[trigger] delta.has(name);
            &&& !first ==> says(outcome, "multiple completion choices are unsupported"@)
            &&& first && message is Null && brings && completion.message is Some ==> says(
                outcome,
                "incremental content follows a complete message"@,
            )
            &&& first && message is Null && completion.message is None ==> {
                &&& !texts ==> says(outcome, "message text fields must be strings"@)
                &&& texts && !listed ==> says(outcome, "tool_calls must be an array"@)
                &&& texts && listed && text_in(delta.field("refusal"@)).len() > 0 ==> says(
                    outcome,
                    "upstream refused this request"@,
                )
            }
            &&& first && !(message is Null) ==> {
                &&& !(message is Object) || completion.has_delta_content ==> says(
                    outcome,
                    "conflicting complete message and incremental content"@,
                )
                &&& message is Object && !completion.has_delta_content && !alone ==> says(
                    outcome,
                    "choice contains both message and delta"@,
                )
                &&& message is Object && !completion.has_delta_content && alone && completion.message is Some
                    && outcome is Err ==> says(outcome, "complete message changed mid-stream"@)
                &&& message is Object && !completion.has_delta_content && alone && completion.message is None
                    && is_plain_content(message) && (exists|i: int|
                    0 <= i < list_in(message.field("tool_calls"@)).len() && !((#[trigger] list_in(
                        message.field("tool_calls"@),
                    )[i]) is Object)) ==> says(outcome, "invalid complete tool call"@)
            }
        }),
{
    let delta = choice.field("delta"@);
    assert(crate::laws::intake::brings_content(delta) <==> crate::completion::delta_adds_content(delta));
    if delta.has_fields() {
        let name = choose|name: Seq<char>| #[trigger] delta->Object_0.dom().contains(name);
        assert(delta.has(name));
    }
}

/// A chunk that is refused before its choices are read is refused with the reason.
pub proof fn refused_chunks_are_explained(completion: CompletionView, chunk: JsonView, tools: Map<Seq<char>, ToolView>)
    requires
        chunk.field("error"@) is Null,
    ensures
        ({
            let outcome = completion.updated(chunk, tools).1;
            let id = chunk.field("id"@);
            let counts = chunk.field("usage"@) is Object ==> counts_hold(chunk.field("usage"@));
            let starts = completion.id.len() == 0;
            &&& !counts ==> says(outcome, "usage counters must be non-negative integers"@)
            &&& counts && starts && text_in(id).len() == 0 ==> says(outcome, "stream lacks completion ID"@)
            &&& counts && !starts && !(id is Null) && id != JsonView::Text(completion.id) ==> says(
                outcome,
                "completion ID changed mid-stream"@,
            )
            &&& counts && (if starts {
                text_in(id).len() > 0
            } else {
                id is Null
            }) && !(chunk.field("choices"@) is Array) ==> says(outcome, "stream lacks choices"@)
        }),
{
}

/// A call that cannot be run is refused with the reason.
pub proof fn calls_that_cannot_run_are_explained(
    calls: Map<int, CallView>,
    index: int,
    key: Seq<char>,
    tools: Map<Seq<char>, ToolView>,
)
    requires
        calls_hold(calls),
        calls.dom().contains(index),
    ensures
        ({
            let call = calls[index];
            let outcome = dispatched_call(calls, index, tools);
            let known = crate::laws::outcome::is_only_reading(call, tools, key);
            &&& call.id.len() == 0 ==> says(outcome, "missing or duplicate tool call ID"@)
            &&& call.id.len() > 0 && (forall|name: Seq<char>| #[trigger]
                call.names.contains(name) ==> !tools.dom().contains(name)) ==> says(
                outcome,
                "upstream requested an unadvertised tool"@,
            )
            &&& call.id.len() > 0 && known && parsed(call.arguments) is None ==> says(
                outcome,
                "invalid tool argument JSON"@,
            )
            &&& call.id.len() > 0 && known && tools[key].custom && (parsed(call.arguments) matches Some(arguments)
                && !(arguments.field("input"@) is Text)) ==> says(outcome, "custom tool requires a string input"@)
        }),
{
    let call = calls[index];
    if call.id.len() > 0 {
        assert(!crate::dispatch::repeats_id(calls, index));
    }
    if crate::laws::outcome::is_only_reading(call, tools, key) {
        assert(crate::dispatch::is_advertised(call.names, tools, key));
        assert forall|name: Seq<char>| crate::dispatch::is_advertised(call.names, tools, name) implies name == key by {
            assert(call.names.contains(name));
        }
    }
}

/// A completion without a reason to end is refused as such.
pub proof fn unfinished_completions_are_explained(completion: CompletionView, tools: Map<Seq<char>, ToolView>)
    requires
        completion.failure is None,
        completion.finish != Some("stop"@),
        completion.finish != Some("length"@),
        completion.finish != Some("tool_calls"@),
    ensures
        says(
            completion.finished(tools),
            "incomplete or unsupported finish reason; no tool calls were executed"@,
        ),
{
}

/// A tool that cannot be declared is refused with the reason.
pub proof fn refused_declarations_are_explained(declared: DeclaredView, namespace: Option<Seq<char>>, spec: JsonView)
    ensures
        ({
            let kind = spec.field("type"@);
            let custom = kind == JsonView::Text("custom"@);
            let outcome = declared.declare(namespace, spec);
            let tool = ToolView { name: text_in(spec.field("name"@)), namespace, custom };
            let name = alias(tool);
            let typed = kind == JsonView::Text("function"@) || custom;
            let named = spec.field("name"@) is Text;
            let empty = namespace is None && tool.name.len() == 0;
            let taken = declared.table.dom().contains(name) && declared.table[name] != tool;
            &&& !typed ==> says(outcome, "only function and custom tools are supported"@)
            &&& typed && !named ==> says(outcome, "missing string field "@ + "name"@)
            &&& typed && named && empty ==> says(outcome, "empty tool name"@)
            &&& typed && named && !empty && taken ==> says(outcome, "flattened tool names collide"@)
            &&& typed && named && !empty && !taken && outcome is Err ==> says(
                outcome,
                "conflicting definitions of one tool"@,
            )
        }),
{
    reveal_strlit("function");
    reveal_strlit("custom");
    reveal_strlit("__");
    assert("function"@.len() == 8 && "custom"@.len() == 6 && "__"@.len() == 2);
}

/// A namespace that cannot be declared is refused with the reason.
pub proof fn refused_namespaces_are_explained(declared: DeclaredView, spec: JsonView)
    requires
        spec.field("type"@) == JsonView::Text("namespace"@),
    ensures
        !(spec.field("name"@) is Text) ==> says(declared.declare_spec(spec), "missing string field "@ + "name"@),
        spec.field("name"@) is Text && !(spec.field("tools"@) is Array) ==> says(
            declared.declare_spec(spec),
            "namespace lacks tools"@,
        ),
{
}

/// What arrives and is no part of a completion ends a stream, with the reason.
pub proof fn failed_streams_are_explained(
    completion: CompletionView,
    arrival: IncomingView,
    tools: Map<Seq<char>, ToolView>,
)
    ensures
        ({
            let reply = reply_view(completion, tools, arrival).1;
            let size = match arrival {
                IncomingView::Data(data) => vstd::utf8::encode_utf8(data).len(),
                _ => 0,
            };
            match arrival {
                IncomingView::TimedOut => reply.done && reply.error == Some(
                    ErrorView::Stream("CodeBuddy stream idle timeout"@),
                ),
                IncomingView::Ended => reply.done && reply.error == Some(
                    ErrorView::Stream("CodeBuddy stream ended without [DONE]"@),
                ),
                IncomingView::Malformed => reply.done && reply.error == Some(
                    ErrorView::Stream("invalid CodeBuddy event stream"@),
                ),
                IncomingView::Data(data) => data != "[DONE]"@ ==> {
                    &&& completion.bytes + size > 16777216 ==> reply.done && reply.error == Some(
                        ErrorView::InvalidRequest(
                            "CodeBuddy Chat: "@ + "completion exceeds 16 MiB adapter limit"@,
                        ),
                    )
                    &&& completion.bytes + size <= 16777216 && parsed(data) is None ==> reply.done && reply.error
                        == Some(ErrorView::InvalidRequest("CodeBuddy Chat: "@ + "invalid stream JSON"@))
                },
            }
        }),
{
}

} // verus!
