//! What holds of the messages that a history is sent as.

use vstd::prelude::*;

use crate::error::ErrorView;
use crate::history::{
    call_arguments, declares_tools, is_text_part, string_view, text_view, HistoryView,
};
use crate::json::JsonView;
use crate::laws::batches::lemma_position;
use crate::message::{MessageView, WireCallView};
use crate::request::{
    body_view, declared_view, definitions_json, encode_view, messages_json, messages_view, opened,
    settings_view, DefinitionView, SettingsView,
};
use crate::tools::{alias, registered, ToolView};

verus! {

/// Whether the first messages can no longer change: no open call belongs to them,
/// and no call can join the last of them.
pub open spec fn is_settled(history: HistoryView, count: int) -> bool {
    &&& 0 <= count <= history.messages.len()
    &&& count > 0 ==> !(history.messages[count - 1] is Assistant)
    &&& history.open.len() > 0 ==> count <= history.batch
}

/// Whether reading went on without a change to the first messages, or to any that is
/// not one of the assistant.
spec fn is_kept(before: HistoryView, after: HistoryView, count: int) -> bool {
    &&& after.wf()
    &&& is_settled(before, count) ==> is_settled(after, count) && after.messages.take(count)
        == before.messages.take(count)
    &&& before.messages.len() <= after.messages.len()
    &&& forall|i: int|
        0 <= i < before.messages.len() && !((#[trigger] before.messages[i]) is Assistant)
            ==> after.messages[i] == before.messages[i]
}

proof fn lemma_say(history: HistoryView, content: Seq<char>, count: int)
    requires
        history.wf(),
    ensures
        is_kept(history, history.say(content), count),
{
    let after = history.say(content);
    if is_settled(history, count) {
        assert(after.messages.take(count) =~= history.messages.take(count));
    }
}

proof fn lemma_hear(history: HistoryView, role: Seq<char>, content: Seq<char>, count: int)
    requires
        history.wf(),
    ensures
        history.hear(role, content) matches Ok(after) ==> is_kept(history, after, count),
{
    if let Ok(after) = history.hear(role, content) {
        if is_settled(history, count) {
            assert(after.messages.take(count) =~= history.messages.take(count));
        }
    }
}

proof fn lemma_ask(history: HistoryView, call: WireCallView, count: int)
    requires
        history.wf(),
    ensures
        history.ask(call) matches Ok(after) ==> is_kept(history, after, count),
{
    if let Ok(after) = history.ask(call) {
        if is_settled(history, count) {
            assert(after.messages.take(count) =~= history.messages.take(count));
        }
    }
}

proof fn lemma_answer(history: HistoryView, call_id: Seq<char>, output: Seq<char>, count: int)
    requires
        history.wf(),
    ensures
        history.answer(call_id, output) matches Ok(after) ==> is_kept(history, after, count),
{
    lemma_position(history.open, call_id);
    if let Ok(after) = history.answer(call_id, output) {
        if is_settled(history, count) {
            assert(after.messages.take(count) =~= history.messages.take(count));
        }
    }
}

proof fn lemma_read(history: HistoryView, item: JsonView, count: int)
    requires
        history.wf(),
    ensures
        history.read(item) matches Ok(after) ==> is_kept(history, after, count),
{
    if let Ok(after) = history.read(item) {
        let kind = item.field("type"@);
        if kind == JsonView::Text("message"@) || kind == JsonView::Text("agent_message"@) {
            let content = text_view(item.field("content"@))->Ok_0;
            lemma_say(history, content, count);
            lemma_hear(history, "user"@, content, count);
            if let Ok(role) = string_view(item, "role"@) {
                lemma_hear(history, role, content, count);
            }
        } else if kind == JsonView::Text("function_call"@) || kind == JsonView::Text("custom_tool_call"@) {
            let custom = kind == JsonView::Text("custom_tool_call"@);
            let tool = ToolView {
                name: string_view(item, "name"@)->Ok_0,
                namespace: item.field("namespace"@).text(),
                custom,
            };
            let entered = HistoryView { table: registered(history.table, tool), ..history };
            let call = WireCallView {
                id: string_view(item, "call_id"@)->Ok_0,
                name: alias(tool),
                arguments: call_arguments(item, custom)->Ok_0,
            };
            lemma_ask(entered, call, count);
        } else if kind == JsonView::Text("function_call_output"@) || kind == JsonView::Text(
            "custom_tool_call_output"@,
        ) {
            lemma_answer(
                history,
                string_view(item, "call_id"@)->Ok_0,
                text_view(item.field("output"@))->Ok_0,
                count,
            );
        }
    }
}

proof fn lemma_read_all(history: HistoryView, items: Seq<JsonView>, count: int)
    requires
        history.wf(),
    ensures
        history.read_all(items) matches Ok(after) ==> is_kept(history, after, count),
    decreases items.len(),
{
    if items.len() > 0 {
        lemma_read_all(history, items.drop_last(), count);
        if let Ok(between) = history.read_all(items.drop_last()) {
            lemma_read(between, items.last(), count);
            if let Ok(after) = between.read(items.last()) {
                assert forall|i: int|
                    0 <= i < history.messages.len() && !((#[trigger] history.messages[i]) is Assistant) implies after.messages[i]
                    == history.messages[i] by {
                    assert(between.messages[i] == history.messages[i]);
                }
            }
        }
    }
}

/// Reading on changes no message that is settled, and none that is not one of the
/// assistant.
pub proof fn reading_on_keeps_messages(history: HistoryView, items: Seq<JsonView>, count: int)
    requires
        history.wf(),
        is_settled(history, count),
    ensures
        history.read_all(items) matches Ok(after) ==> {
            &&& after.messages.take(count) == history.messages.take(count)
            &&& history.messages.len() <= after.messages.len()
            &&& forall|i: int|
                0 <= i < history.messages.len() && !((#[trigger] history.messages[i]) is Assistant)
                    ==> after.messages[i] == history.messages[i]
        },
{
    lemma_read_all(history, items, count);
}

/// Reading two lists one after the other is reading them as one.
pub proof fn reading_goes_on(history: HistoryView, items: Seq<JsonView>, more: Seq<JsonView>)
    ensures
        history.read_all(items + more) == match history.read_all(items) {
            Err(error) => Err(error),
            Ok(between) => between.read_all(more),
        },
    decreases more.len(),
{
    if more.len() == 0 {
        assert(items + more =~= items);
    } else {
        reading_goes_on(history, items, more.drop_last());
        assert((items + more).drop_last() =~= items + more.drop_last());
    }
}

/// Whether two histories differ in their tools at most.
spec fn is_twin(a: HistoryView, b: HistoryView) -> bool {
    HistoryView { table: b.table, ..a } == b
}

proof fn lemma_twins(a: HistoryView, b: HistoryView, items: Seq<JsonView>)
    requires
        is_twin(a, b),
        a.read_all(items) is Ok,
        b.read_all(items) is Ok,
    ensures
        is_twin(a.read_all(items)->Ok_0, b.read_all(items)->Ok_0),
    decreases items.len(),
{
    if items.len() > 0 {
        lemma_twins(a, b, items.drop_last());
    }
}

/// A history that goes on after results, or after a message of the user, is sent
/// with the same messages as before, and then more of them. So the provider can
/// reuse what it has read. (Where the last message is one of the assistant, a call
/// that follows belongs to it.)
pub proof fn growing_histories_keep_their_messages(request: JsonView, longer: JsonView, more: Seq<JsonView>)
    requires
        encode_view(request) is Ok,
        encode_view(longer) is Ok,
        longer.field("instructions"@) == request.field("instructions"@),
        longer.field("input"@) == JsonView::Array(request.field("input"@)->Array_0 + more),
        messages_view(request, declared_view(request)->Ok_0.table) matches Ok(messages) && messages.len() > 0
            && !(messages.last() is Assistant),
    ensures
        messages_view(request, declared_view(request)->Ok_0.table)->Ok_0.is_prefix_of(
            messages_view(longer, declared_view(longer)->Ok_0.table)->Ok_0,
        ),
        encode_view(request)->Ok_0.0.field("messages"@)->Array_0.is_prefix_of(
            encode_view(longer)->Ok_0.0.field("messages"@)->Array_0,
        ),
{
    let items = request.field("input"@)->Array_0;
    let table = declared_view(request)->Ok_0.table;
    let other = declared_view(longer)->Ok_0.table;
    let start = opened(request, table);
    let twin = opened(longer, other);
    assert(is_twin(start, twin));
    let read = start.read_all(items)->Ok_0;
    reading_goes_on(twin, items, more);
    lemma_twins(start, twin, items);
    let between = twin.read_all(items)->Ok_0;
    let after = between.read_all(more)->Ok_0;
    let count = read.messages.len() as int;
    lemma_read_all(twin, items, 0);
    lemma_read_all(between, more, count);
    assert(is_settled(between, count));
    assert(between.messages.take(count) =~= read.messages);
    assert(read.messages.is_prefix_of(after.messages)) by {
        assert(after.messages.subrange(0, count) =~= after.messages.take(count));
    }
    bodies_carry_their_content(request);
    bodies_carry_their_content(longer);
    assert(messages_json(read.messages).is_prefix_of(messages_json(after.messages))) by {
        assert(messages_json(after.messages).subrange(0, count) =~= messages_json(read.messages)) by {
            assert forall|i: int| 0 <= i < count implies after.messages[i] == read.messages[i] by {
                assert(after.messages.take(count)[i] == read.messages[i]);
            }
        }
    }
}

proof fn lemma_body_fields(settings: SettingsView, messages: Seq<MessageView>, definitions: Seq<DefinitionView>)
    ensures
        ({
            let body = body_view(settings, messages, definitions);
            &&& body.field("messages"@) == JsonView::Array(messages_json(messages))
            &&& body.field("tools"@) == JsonView::Array(definitions_json(definitions))
            &&& body.field("model"@) == JsonView::Text(settings.model)
            &&& body.field("tool_choice"@) == JsonView::Text(settings.tool_choice)
            &&& body.field("reasoning_effort"@) == JsonView::Text(settings.effort)
            &&& body.field("stream"@) == JsonView::Bool(true)
            &&& body.field("max_tokens"@) == match settings.max_tokens {
                Some(budget) => JsonView::Integer(budget as int),
                None => JsonView::Null,
            }
        }),
{
    reveal_strlit("model");
    assert("model"@.len() == 5);
    reveal_strlit("messages");
    assert("messages"@.len() == 8);
    reveal_strlit("tools");
    assert("tools"@.len() == 5);
    reveal_strlit("tool_choice");
    assert("tool_choice"@.len() == 11);
    reveal_strlit("stream");
    assert("stream"@.len() == 6);
    reveal_strlit("stream_options");
    assert("stream_options"@.len() == 14);
    reveal_strlit("reasoning_effort");
    assert("reasoning_effort"@.len() == 16);
    reveal_strlit("thinking");
    assert("thinking"@.len() == 8);
    reveal_strlit("max_tokens");
    assert("max_tokens"@.len() == 10);
    assert("model"@[0] != "tools"@[0]);
    assert("messages"@[0] != "thinking"@[0]);
}

/// The body of a request carries its messages and tools and what else it asks for.
pub proof fn bodies_carry_their_content(request: JsonView)
    ensures
        encode_view(request) matches Ok((body, tools)) ==> {
            let declared = declared_view(request)->Ok_0;
            let settings = settings_view(request)->Ok_0;
            &&& tools == declared.table
            &&& body.field("messages"@) == JsonView::Array(
                messages_json(messages_view(request, declared.table)->Ok_0),
            )
            &&& body.field("tools"@) == JsonView::Array(
                definitions_json(declared.definitions),
            )
            &&& body.field("model"@) == request.field("model"@)
            &&& body.field("tool_choice"@) == JsonView::Text(settings.tool_choice)
            &&& body.field("reasoning_effort"@) == JsonView::Text(settings.effort)
            &&& body.field("stream"@) == JsonView::Bool(true)
            &&& body.field("max_tokens"@) == match settings.max_tokens {
                Some(budget) => JsonView::Integer(budget as int),
                None => JsonView::Null,
            }
        },
{
    if let Ok((body, _)) = encode_view(request) {
        let declared = declared_view(request)->Ok_0;
        lemma_body_fields(
            settings_view(request)->Ok_0,
            messages_view(request, declared.table)->Ok_0,
            declared.definitions,
        );
    }
}

/// The instructions of a request are sent first, word for word, as a message of the
/// system.
pub proof fn instructions_come_first(request: JsonView, instructions: Seq<char>)
    requires
        request.field("instructions"@) == JsonView::Text(instructions),
        instructions.len() > 0,
    ensures
        encode_view(request) matches Ok((body, _)) ==> body.field("messages"@)->Array_0.len() > 0
            && body.field("messages"@)->Array_0[0] == JsonView::object().with(
            "role"@,
            JsonView::Text("system"@),
        ).with("content"@, JsonView::Text(instructions)),
{
    if let Ok((body, _)) = encode_view(request) {
        let table = declared_view(request)->Ok_0.table;
        let history = opened(request, table);
        assert(history.messages[0] == (MessageView::Plain { role: "system"@, content: instructions }));
        lemma_read_all(history, request.field("input"@)->Array_0, 1);
        let messages = messages_view(request, table)->Ok_0;
        assert(messages[0] == history.messages[0]);
        bodies_carry_their_content(request);
        assert(messages_json(messages)[0] == messages[0].json());
    }
}

/// Whether an item is of a kind that can be read.
pub open spec fn is_known(item: JsonView) -> bool {
    let kind = item.field("type"@);
    ||| kind == JsonView::Text("reasoning"@)
    ||| kind == JsonView::Text("message"@)
    ||| kind == JsonView::Text("agent_message"@)
    ||| kind == JsonView::Text("function_call"@)
    ||| kind == JsonView::Text("custom_tool_call"@)
    ||| kind == JsonView::Text("function_call_output"@)
    ||| kind == JsonView::Text("custom_tool_call_output"@)
    ||| declares_tools(item)
}

/// Whether an item holds what the provider cannot be told: something encrypted,
/// something that is no text, or something of an unknown kind.
pub open spec fn is_unreadable(item: JsonView) -> bool {
    let kind = item.field("type"@);
    ||| !is_known(item)
    ||| kind == JsonView::Text("reasoning"@) && !(item.field("encrypted_content"@) is Null)
    ||| kind == JsonView::Text("reasoning"@) && item.field("content"@) is Null && text_view(
        item.field("summary"@),
    ) is Err
    ||| (kind == JsonView::Text("message"@) || kind == JsonView::Text("agent_message"@)) && text_view(
        item.field("content"@),
    ) is Err
    ||| (kind == JsonView::Text("function_call"@) || kind == JsonView::Text("custom_tool_call"@))
        && item.field("encrypted_function_args"@) is Array && item.field(
        "encrypted_function_args"@,
    )->Array_0.len() > 0
    ||| (kind == JsonView::Text("function_call_output"@) || kind == JsonView::Text(
        "custom_tool_call_output"@,
    )) && text_view(item.field("output"@)) is Err
}

/// The kinds of items differ.
pub proof fn lemma_kinds()
    ensures
        "message"@ != "agent_message"@,
        "reasoning"@ != "message"@,
        "reasoning"@ != "agent_message"@,
        "function_call"@ != "reasoning"@,
        "function_call"@ != "message"@,
        "function_call"@ != "agent_message"@,
        "function_call"@ != "custom_tool_call"@,
        "custom_tool_call"@ != "reasoning"@,
        "custom_tool_call"@ != "message"@,
        "custom_tool_call"@ != "agent_message"@,
        "function_call_output"@ != "reasoning"@,
        "function_call_output"@ != "message"@,
        "function_call_output"@ != "agent_message"@,
        "function_call_output"@ != "function_call"@,
        "function_call_output"@ != "custom_tool_call"@,
        "custom_tool_call_output"@ != "reasoning"@,
        "custom_tool_call_output"@ != "message"@,
        "custom_tool_call_output"@ != "agent_message"@,
        "custom_tool_call_output"@ != "function_call"@,
        "custom_tool_call_output"@ != "custom_tool_call"@,
{
    reveal_strlit("message");
    assert("message"@.len() == 7);
    reveal_strlit("agent_message");
    assert("agent_message"@.len() == 13);
    reveal_strlit("reasoning");
    assert("reasoning"@.len() == 9);
    reveal_strlit("function_call");
    assert("function_call"@.len() == 13);
    reveal_strlit("custom_tool_call");
    assert("custom_tool_call"@.len() == 16);
    reveal_strlit("function_call_output");
    assert("function_call_output"@.len() == 20);
    reveal_strlit("custom_tool_call_output");
    assert("custom_tool_call_output"@.len() == 23);
    assert("function_call"@[0] != "agent_message"@[0]);
}

proof fn lemma_unreadable(history: HistoryView, item: JsonView)
    requires
        is_unreadable(item),
    ensures
        history.read(item) is Err,
{
    lemma_kinds();
}

proof fn lemma_refused(history: HistoryView, items: Seq<JsonView>, i: int)
    requires
        0 <= i < items.len(),
        is_unreadable(items[i]),
    ensures
        history.read_all(items) is Err,
    decreases items.len(),
{
    if i < items.len() - 1 {
        lemma_refused(history, items.drop_last(), i);
    } else if let Ok(before) = history.read_all(items.drop_last()) {
        lemma_unreadable(before, items.last());
    }
}

/// A request with an item that the provider cannot be told is refused as a whole.
pub proof fn unreadable_requests_are_refused(request: JsonView, i: int)
    requires
        request.field("input"@) is Array,
        0 <= i < request.field("input"@)->Array_0.len(),
        is_unreadable(request.field("input"@)->Array_0[i]),
    ensures
        encode_view(request) is Err,
{
    if let Ok(declared) = declared_view(request) {
        lemma_refused(opened(request, declared.table), request.field("input"@)->Array_0, i);
    }
}

/// A content with a part that is no text has no text.
pub proof fn parts_without_text_are_refused(parts: Seq<JsonView>, i: int)
    requires
        0 <= i < parts.len(),
        !is_text_part(parts[i]),
    ensures
        text_view(JsonView::Array(parts)) is Err,
    decreases parts.len(),
{
    if i < parts.len() - 1 {
        parts_without_text_are_refused(parts.drop_last(), i);
    }
}

/// Only what the model thought is replayed to it: the summary that was displayed
/// makes no difference, as long as it is a text.
pub proof fn summaries_are_not_replayed(history: HistoryView, item: JsonView, summary: JsonView)
    requires
        item is Object,
        item.field("type"@) == JsonView::Text("reasoning"@),
        text_view(summary) is Ok,
        text_view(item.field("summary"@)) is Ok,
    ensures
        history.read(item.with("summary"@, summary)) == history.read(item),
        item.field("content"@) is Null && item.field("encrypted_content"@) is Null ==> history.read(item) == Ok::<
            HistoryView,
            ErrorView,
        >(history),
{
    reveal_strlit("summary");
    assert("summary"@.len() == 7);
    reveal_strlit("type");
    assert("type"@.len() == 4);
    reveal_strlit("content");
    assert("content"@.len() == 7);
    reveal_strlit("encrypted_content");
    assert("encrypted_content"@.len() == 17);
    assert("summary"@[0] != "content"@[0]);
    let other = item.with("summary"@, summary);
    assert(other.field("type"@) == item.field("type"@));
    assert(other.field("content"@) == item.field("content"@));
    assert(other.field("encrypted_content"@) == item.field("encrypted_content"@));
    assert(other.field("summary"@) == summary);
}

} // verus!
