//! What holds of the calls and the results in the messages of a history.

use vstd::prelude::*;
use vstd::seq_lib::*;

use crate::history::{
    call_arguments, call_position, earlier_result, string_view, text_view, HistoryView,
};
use crate::json::JsonView;
use crate::message::{assistant, MessageView, WireCallView};
use crate::request::{messages_view, opened};
use crate::tools::{alias, registered, ToolView};

verus! {

/// The calls of a message.
pub open spec fn calls_of(message: MessageView) -> Seq<WireCallView> {
    match message {
        MessageView::Assistant { calls, .. } => calls,
        _ => Seq::empty(),
    }
}

/// The ID of the call that a message answers.
pub open spec fn answered_id(message: MessageView) -> Seq<char> {
    match message {
        MessageView::Tool { call_id, .. } => call_id,
        _ => Seq::empty(),
    }
}

pub open spec fn call_ids(calls: Seq<WireCallView>) -> Seq<Seq<char>> {
    calls.map_values(|call: WireCallView| call.id)
}

/// The IDs that the messages from here on answer, up to the end.
pub open spec fn answered_ids(messages: Seq<MessageView>, from: int, to: int) -> Seq<Seq<char>> {
    Seq::new((to - from) as nat, |k: int| answered_id(messages[from + k]))
}

/// Whether the message's calls are answered by the messages right after it, each
/// exactly once, and nothing else is.
pub open spec fn is_answered(messages: Seq<MessageView>, i: int) -> bool {
    let count = calls_of(messages[i]).len();
    &&& i + count < messages.len()
    &&& forall|k: int| i < k <= i + count ==> (#[trigger] messages[k]) is Tool
    &&& i + count + 1 < messages.len() ==> !(messages[i + count + 1] is Tool)
    &&& call_ids(calls_of(messages[i])).no_duplicates()
    &&& answered_ids(messages, i + 1, i + 1 + count).to_multiset() == call_ids(
        calls_of(messages[i]),
    ).to_multiset()
}

/// Whether a result follows the message that made its call, or another result of
/// that message.
pub open spec fn follows_calls(messages: Seq<MessageView>, i: int) -> bool {
    i > 0 && (messages[i - 1] is Tool || calls_of(messages[i - 1]).len() > 0)
}

/// Whether messages are a chat that a provider takes: the calls of every message are
/// answered right after it, and every result answers such a call.
pub open spec fn is_chat(messages: Seq<MessageView>) -> bool {
    &&& forall|i: int|
        0 <= i < messages.len() && (#[trigger] messages[i]) is Assistant ==> is_answered(messages, i)
    &&& forall|i: int| 0 <= i < messages.len() && (#[trigger] messages[i]) is Tool ==> follows_calls(messages, i)
}

/// Whether the open calls are what is left of the calls of the batch.
pub open spec fn is_open_batch(history: HistoryView) -> bool {
    let messages = history.messages;
    let batch = history.batch;
    let calls = calls_of(messages[batch]);
    &&& 0 <= batch < messages.len()
    &&& messages[batch] is Assistant
    &&& calls.len() > 0
    &&& calls.len() == messages.len() - 1 - batch + history.open.len()
    &&& forall|k: int| batch < k < messages.len() ==> (#[trigger] messages[k]) is Tool
    &&& call_ids(calls).no_duplicates()
    &&& answered_ids(messages, batch + 1, messages.len() as int).to_multiset().add(
        call_ids(history.open).to_multiset(),
    ) == call_ids(calls).to_multiset()
}

/// A history whose messages are a chat, but for the results that are outstanding.
pub open spec fn is_batched(history: HistoryView) -> bool {
    &&& forall|i: int|
        0 <= i < history.messages.len() && (#[trigger] history.messages[i]) is Assistant && !(
        history.open.len() > 0 && i == history.batch) ==> is_answered(history.messages, i)
    &&& forall|i: int|
        0 <= i < history.messages.len() && (#[trigger] history.messages[i]) is Tool ==> follows_calls(
            history.messages,
            i,
        )
    &&& history.open.len() > 0 ==> is_open_batch(history)
}

/// Whether two messages make the same calls and answer the same call.
spec fn is_like(a: MessageView, b: MessageView) -> bool {
    &&& a is Assistant == b is Assistant
    &&& a is Tool == b is Tool
    &&& calls_of(a) == calls_of(b)
    &&& answered_id(a) == answered_id(b)
}

proof fn lemma_like(messages: Seq<MessageView>, other: Seq<MessageView>, i: int)
    requires
        messages.len() == other.len(),
        forall|k: int| 0 <= k < messages.len() ==> is_like(#[trigger] messages[k], other[k]),
        0 <= i < messages.len(),
    ensures
        is_answered(messages, i) ==> is_answered(other, i),
        follows_calls(messages, i) ==> follows_calls(other, i),
{
    assert(is_like(messages[i], other[i]));
    if is_answered(messages, i) {
        let count = calls_of(messages[i]).len();
        assert forall|k: int| i < k <= i + count implies (#[trigger] other[k]) is Tool by {
            assert(is_like(messages[k], other[k]));
        }
        if i + count + 1 < messages.len() {
            assert(is_like(messages[i + count + 1], other[i + count + 1]));
        }
        assert(answered_ids(messages, i + 1, i + 1 + count) =~= answered_ids(other, i + 1, i + 1 + count)) by {
            assert forall|k: int| 0 <= k < count implies #[trigger] answered_ids(messages, i + 1, i + 1 + count)[k]
                == answered_ids(other, i + 1, i + 1 + count)[k] by {
                assert(is_like(messages[i + 1 + k], other[i + 1 + k]));
            }
        }
    }
    if follows_calls(messages, i) {
        assert(is_like(messages[i - 1], other[i - 1]));
    }
}

/// A message that is no result leaves the chat before it as it is.
proof fn lemma_push(messages: Seq<MessageView>, message: MessageView, i: int)
    requires
        0 <= i < messages.len(),
    ensures
        is_answered(messages, i) && (!(message is Tool) || i + calls_of(messages[i]).len() + 1
            < messages.len()) ==> is_answered(messages.push(message), i),
        follows_calls(messages, i) ==> follows_calls(messages.push(message), i),
{
    let more = messages.push(message);
    if is_answered(messages, i) {
        let count = calls_of(messages[i]).len();
        assert forall|k: int| i < k <= i + count implies more[k] == messages[k] by {}
        assert(answered_ids(more, i + 1, i + 1 + count) =~= answered_ids(messages, i + 1, i + 1 + count));
    }
}

/// An assistant message without calls is answered.
proof fn lemma_silent(messages: Seq<MessageView>, message: MessageView)
    requires
        message is Assistant,
        calls_of(message).len() == 0,
    ensures
        is_answered(messages.push(message), messages.len() as int),
{
    let more = messages.push(message);
    let i = messages.len() as int;
    assert(answered_ids(more, i + 1, i + 1) =~= Seq::empty());
    assert(call_ids(calls_of(message)) =~= Seq::empty());
}

/// What the assistant says leaves the messages a chat, but for outstanding results.
pub proof fn lemma_say_batched(history: HistoryView, content: Seq<char>)
    requires
        is_batched(history),
    ensures
        is_batched(history.say(content)),
{
    let after = history.say(content);
    if history.open.len() > 0 {
        let messages = history.messages;
        assert forall|k: int| 0 <= k < messages.len() implies is_like(#[trigger] messages[k], after.messages[k]) by {}
        assert forall|i: int| 0 <= i < messages.len() implies (is_answered(messages, i) ==> is_answered(
            after.messages,
            i,
        )) && (follows_calls(messages, i) ==> follows_calls(after.messages, i)) by {
            lemma_like(messages, after.messages, i);
        }
        assert(answered_ids(after.messages, after.batch + 1, after.messages.len() as int) =~= answered_ids(
            messages,
            history.batch + 1,
            messages.len() as int,
        ));
        assert forall|i: int|
            0 <= i < after.messages.len() && (#[trigger] after.messages[i]) is Assistant && !(
            after.open.len() > 0 && i == after.batch) implies is_answered(after.messages, i) by {
            assert(is_like(messages[i], after.messages[i]));
        }
        assert forall|i: int|
            0 <= i < after.messages.len() && (#[trigger] after.messages[i]) is Tool implies follows_calls(
            after.messages,
            i,
        ) by {
            assert(is_like(messages[i], after.messages[i]));
        }
    } else {
        lemma_add(history, assistant(content).with_reasoning(history.reasoning));
    }
}

/// A message without calls, which answers none, can be added where no call is open.
proof fn lemma_add(history: HistoryView, message: MessageView)
    requires
        is_batched(history),
        history.open.len() == 0,
        !(message is Tool),
        calls_of(message).len() == 0,
    ensures
        is_batched(history.with_message(message)),
{
    let messages = history.messages;
    let more = messages.push(message);
    assert forall|i: int| 0 <= i < messages.len() implies (is_answered(messages, i) ==> is_answered(more, i))
        && (follows_calls(messages, i) ==> follows_calls(more, i)) by {
        lemma_push(messages, message, i);
    }
    if message is Assistant {
        lemma_silent(messages, message);
    }
    assert forall|i: int| 0 <= i < more.len() && (#[trigger] more[i]) is Assistant implies is_answered(more, i) by {
        if i < messages.len() {
            assert(more[i] == messages[i]);
        }
    }
    assert forall|i: int| 0 <= i < more.len() && (#[trigger] more[i]) is Tool implies follows_calls(more, i) by {
        assert(more[i] == messages[i]);
    }
}

/// Where a call of that ID is, it has it; where none is, none has it.
pub proof fn lemma_position(calls: Seq<WireCallView>, id: Seq<char>)
    ensures
        match call_position(calls, id) {
            Some(i) => 0 <= i < calls.len() && calls[i].id == id,
            None => !call_ids(calls).contains(id),
        },
    decreases calls.len(),
{
    if calls.len() > 0 && calls.last().id != id {
        lemma_position(calls.drop_last(), id);
        if call_position(calls.drop_last(), id) is None {
            assert(!call_ids(calls).contains(id)) by {
                if call_ids(calls).contains(id) {
                    let i = choose|i: int| 0 <= i < call_ids(calls).len() && call_ids(calls)[i] == id;
                    assert(i < calls.len() - 1);
                    assert(call_ids(calls.drop_last())[i] == id);
                }
            }
        }
    }
}

proof fn lemma_ask(history: HistoryView, call: WireCallView)
    requires
        is_batched(history),
    ensures
        history.ask(call) matches Ok(after) ==> is_batched(after),
{
    broadcast use group_to_multiset_ensures;

    if let Ok(after) = history.ask(call) {
        let messages = if history.assistant_last() {
            history.messages
        } else {
            history.messages.push(assistant(Seq::empty()))
        };
        if !history.assistant_last() {
            lemma_add(history, assistant(Seq::empty()));
        }
        let last = messages.len() - 1;
        let calls = calls_of(messages[last]);
        assert(messages[last] is Assistant);
        if history.open.len() == 0 {
            assert(is_answered(messages, last));
            assert(calls.len() == 0);
            assert(calls =~= Seq::empty());
            assert(history.open =~= Seq::empty());
        } else {
            assert(history.batch == last);
        }
        assert(answered_ids(messages, last + 1, messages.len() as int) =~= Seq::empty());
        assert(call_ids(calls).to_multiset() =~= call_ids(history.open).to_multiset());
        lemma_position(history.open, call.id);
        assert(!call_ids(calls).contains(call.id)) by {
            if call_ids(calls).contains(call.id) {
                assert(call_ids(calls).to_multiset().contains(call.id));
                assert(call_ids(history.open).to_multiset().contains(call.id));
                assert(call_ids(history.open).contains(call.id));
            }
        }
        assert(call_ids(calls.push(call)) =~= call_ids(calls).push(call.id));
        assert(call_ids(history.open.push(call)) =~= call_ids(history.open).push(call.id));
        assert(calls_of(after.messages[last]) =~= calls.push(call));
        assert(answered_ids(after.messages, last + 1, after.messages.len() as int) =~= Seq::empty());
        assert(Seq::<Seq<char>>::empty().to_multiset() =~= vstd::multiset::Multiset::empty());
        assert(is_open_batch(after)) by {
            assert(call_ids(calls.push(call)).no_duplicates()) by {
                assert forall|i: int, j: int|
                    0 <= i < calls.push(call).len() && 0 <= j < calls.push(call).len() && i != j implies call_ids(
                    calls.push(call),
                )[i] != call_ids(calls.push(call))[j] by {
                    if i == calls.len() {
                        assert(call_ids(calls)[j] != call.id);
                    } else if j == calls.len() {
                        assert(call_ids(calls)[i] != call.id);
                    } else {
                        assert(call_ids(calls)[i] != call_ids(calls)[j]);
                    }
                }
            }
            assert(answered_ids(after.messages, last + 1, after.messages.len() as int).to_multiset().add(
                call_ids(after.open).to_multiset(),
            ) =~= call_ids(calls_of(after.messages[last])).to_multiset());
        }
        assert forall|i: int| 0 <= i < last implies (is_answered(messages, i) ==> is_answered(after.messages, i)) && (
        follows_calls(messages, i) ==> follows_calls(after.messages, i)) by {
            lemma_last_changed(messages, after.messages, i);
        }
        assert forall|i: int|
            0 <= i < after.messages.len() && (#[trigger] after.messages[i]) is Assistant && !(after.open.len()
                > 0 && i == after.batch) implies is_answered(after.messages, i) by {
            assert(after.messages[i] == messages[i]);
        }
        assert forall|i: int|
            0 <= i < after.messages.len() && (#[trigger] after.messages[i]) is Tool implies follows_calls(
            after.messages,
            i,
        ) by {
            assert(after.messages[i] == messages[i]);
        }
    }
}

/// What the last message calls does not matter to the messages before it.
proof fn lemma_last_changed(messages: Seq<MessageView>, other: Seq<MessageView>, i: int)
    requires
        0 <= i < messages.len() - 1,
        messages.len() == other.len(),
        forall|k: int| 0 <= k < messages.len() - 1 ==> messages[k] == other[k],
        messages.last() is Assistant,
        other.last() is Assistant,
    ensures
        is_answered(messages, i) ==> is_answered(other, i),
        follows_calls(messages, i) ==> follows_calls(other, i),
{
    if is_answered(messages, i) {
        let count = calls_of(messages[i]).len();
        assert(i + count < messages.len() - 1) by {
            if i + count == messages.len() - 1 && count > 0 {
                assert(messages[i + count] is Tool);
            }
        }
        assert forall|k: int| i < k <= i + count implies (#[trigger] other[k]) is Tool by {
            assert(messages[k] is Tool);
        }
        assert(answered_ids(messages, i + 1, i + 1 + count) =~= answered_ids(other, i + 1, i + 1 + count));
    }
}

proof fn lemma_answer(history: HistoryView, call_id: Seq<char>, output: Seq<char>, earlier: Option<Seq<char>>)
    requires
        is_batched(history),
    ensures
        history.answer_with(call_id, output, earlier) matches Ok(after) ==> is_batched(after),
{
    broadcast use group_to_multiset_ensures;

    if let Ok(after) = history.answer_with(call_id, output, earlier) {
        lemma_position(history.open, call_id);
        let place = call_position(history.open, call_id)->Some_0;
        let messages = history.messages;
        let message = after.messages.last();
        let batch = history.batch;
        let calls = calls_of(messages[batch]);
        assert(after.messages =~= messages.push(message));
        assert(answered_id(message) == call_id && message is Tool);
        let before = answered_ids(messages, batch + 1, messages.len() as int);
        let now = answered_ids(after.messages, batch + 1, after.messages.len() as int);
        assert(now =~= before.push(call_id));
        assert(call_ids(after.open) =~= call_ids(history.open).remove(place));
        assert(call_ids(history.open)[place] == call_id);
        assert(call_ids(history.open).to_multiset().contains(call_id)) by {
            assert(call_ids(history.open).contains(call_id));
        }
        assert(now.to_multiset().add(call_ids(after.open).to_multiset()) =~= before.to_multiset().add(
            call_ids(history.open).to_multiset(),
        ));
        assert forall|k: int| batch < k < after.messages.len() implies (#[trigger] after.messages[k]) is Tool by {
            if k < messages.len() {
                assert(messages[k] is Tool);
            }
        }
        assert(after.messages[batch] == messages[batch]);
        if after.open.len() == 0 {
            assert(call_ids(after.open) =~= Seq::empty());
            assert(now.to_multiset() =~= call_ids(calls).to_multiset());
            assert(is_answered(after.messages, batch));
        }
        assert forall|i: int|
            0 <= i < after.messages.len() && (#[trigger] after.messages[i]) is Assistant && !(after.open.len()
                > 0 && i == after.batch) implies is_answered(after.messages, i) by {
            assert(i < messages.len());
            assert(after.messages[i] == messages[i]);
            if i != batch {
                assert(is_answered(messages, i));
                assert(i < batch) by {
                    if i > batch {
                        assert(messages[i] is Tool);
                    }
                }
                let count = calls_of(messages[i]).len();
                assert(i + count < batch) by {
                    if i + count >= batch {
                        assert(messages[batch] is Tool);
                    }
                }
                lemma_push(messages, message, i);
            }
        }
        assert forall|i: int|
            0 <= i < after.messages.len() && (#[trigger] after.messages[i]) is Tool implies follows_calls(
            after.messages,
            i,
        ) by {
            if i < messages.len() {
                assert(after.messages[i] == messages[i]);
                lemma_push(messages, message, i);
            } else if i - 1 > batch {
                assert(messages[i - 1] is Tool);
            }
        }
    }
}

proof fn lemma_hear(history: HistoryView, role: Seq<char>, content: Seq<char>)
    requires
        is_batched(history),
    ensures
        history.hear(role, content) matches Ok(after) ==> is_batched(after),
{
    if let Ok(after) = history.hear(role, content) {
        lemma_say_batched(history, Seq::empty());
        let heard = after.messages.last();
        if role == "user"@ && history.reasoning.len() > 0 {
            lemma_add(history.say(Seq::empty()), heard);
        } else {
            lemma_add(history, heard);
        }
    }
}

/// Reading an item leaves the messages a chat, but for outstanding results.
pub proof fn lemma_read_batched(history: HistoryView, item: JsonView)
    requires
        is_batched(history),
    ensures
        history.read(item) matches Ok(after) ==> is_batched(after),
{
    if let Ok(after) = history.read(item) {
        let kind = item.field("type"@);
        if kind == JsonView::Text("message"@) || kind == JsonView::Text("agent_message"@) {
            let content = text_view(item.field("content"@))->Ok_0;
            lemma_say_batched(history, content);
            lemma_hear(history, "user"@, content);
            if let Ok(role) = string_view(item, "role"@) {
                lemma_hear(history, role, content);
            }
        } else if kind == JsonView::Text("function_call"@) || kind == JsonView::Text("custom_tool_call"@) {
            let custom = kind == JsonView::Text("custom_tool_call"@);
            let name = string_view(item, "name"@)->Ok_0;
            let tool = ToolView { name, namespace: item.field("namespace"@).text(), custom };
            let entered = HistoryView {
                table: registered(history.table, tool),
                ..history
            };
            assert(is_batched(entered));
            let call = WireCallView {
                id: string_view(item, "call_id"@)->Ok_0,
                name: alias(tool),
                arguments: call_arguments(item, custom)->Ok_0,
            };
            lemma_ask(entered, call);
        } else if kind == JsonView::Text("function_call_output"@) || kind == JsonView::Text(
            "custom_tool_call_output"@,
        ) {
            let id = string_view(item, "call_id"@)->Ok_0;
            let output = text_view(item.field("output"@))->Ok_0;
            let earlier = match call_position(history.open, id) {
                None => None,
                Some(i) => earlier_result(history.sent, history.open[i], output),
            };
            lemma_answer(history, id, output, earlier);
        }
    }
}

proof fn lemma_read_all(history: HistoryView, items: Seq<JsonView>)
    requires
        is_batched(history),
    ensures
        history.read_all(items) matches Ok(after) ==> is_batched(after),
    decreases items.len(),
{
    if items.len() > 0 {
        lemma_read_all(history, items.drop_last());
        if let Ok(between) = history.read_all(items.drop_last()) {
            lemma_read_batched(between, items.last());
        }
    }
}

/// The messages of a request are a chat: every call is answered right after the
/// message that made it, once, and every result answers such a call. No result is
/// made up, and a history that would need that is refused.
pub proof fn requests_are_chats(request: JsonView, table: Map<Seq<char>, ToolView>)
    ensures
        messages_view(request, table) matches Ok(messages) ==> is_chat(messages),
{
    let history = opened(request, table);
    assert(is_batched(history));
    lemma_read_all(history, request.field("input"@)->Array_0);
}

} // verus!
