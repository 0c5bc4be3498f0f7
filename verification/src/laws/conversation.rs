//! What a body says of each item of the history: nothing is left out, nothing is
//! said twice, and the order is kept.

use vstd::prelude::*;

use crate::history::{call_arguments, parts_view, string_view, text_view, HistoryView};
use crate::json::JsonView;
use crate::laws::batches::{calls_of, is_batched, lemma_read_batched};
use crate::laws::chunks::{concatenated, list_in, text_in};
use crate::laws::history::{bodies_carry_their_content, lemma_kinds};
use crate::message::{assistant, calls_json, MessageView, WireCallView};
use crate::request::{encode_view, messages_json, messages_view, opened};
use crate::tools::{alias, registered, ToolView};
use crate::wire::serialized;

verus! {

/// The words of a content: a text, or the texts of its parts, one after the other.
pub open spec fn words(content: JsonView) -> Seq<char> {
    match content {
        JsonView::Text(text) => text,
        JsonView::Array(parts) => concatenated(parts.map_values(|part: JsonView| text_in(part.field("text"@)))),
        _ => Seq::empty(),
    }
}

/// The role and the words of an item that the user or the system says.
pub open spec fn heard(item: JsonView) -> Option<(Seq<char>, Seq<char>)> {
    let kind = item.field("type"@);
    let role = item.field("role"@);
    if kind == JsonView::Text("agent_message"@) {
        Some(("user"@, words(item.field("content"@))))
    } else if kind == JsonView::Text("message"@) && role == JsonView::Text("user"@) {
        Some(("user"@, words(item.field("content"@))))
    } else if kind == JsonView::Text("message"@) && (role == JsonView::Text("system"@) || role == JsonView::Text(
        "developer"@,
    )) {
        Some(("system"@, words(item.field("content"@))))
    } else {
        None
    }
}

/// Whether an item is what the assistant says.
pub open spec fn is_said(item: JsonView) -> bool {
    item.field("type"@) == JsonView::Text("message"@) && item.field("role"@) == JsonView::Text("assistant"@)
}

/// Whether an item is a tool call.
pub open spec fn is_called(item: JsonView) -> bool {
    item.field("type"@) == JsonView::Text("function_call"@) || item.field("type"@) == JsonView::Text(
        "custom_tool_call"@,
    )
}

/// Whether an item is the result of a tool call.
pub open spec fn is_result(item: JsonView) -> bool {
    item.field("type"@) == JsonView::Text("function_call_output"@) || item.field("type"@) == JsonView::Text(
        "custom_tool_call_output"@,
    )
}

/// All that the user and the system say, in order.
pub open spec fn all_heard(items: Seq<JsonView>) -> Seq<(Seq<char>, Seq<char>)>
    decreases items.len(),
{
    if items.len() == 0 {
        Seq::empty()
    } else {
        match heard(items.last()) {
            Some(said) => all_heard(items.drop_last()).push(said),
            None => all_heard(items.drop_last()),
        }
    }
}

/// All items that are said to the assistant: by the user, by the system, or as the
/// result of a call.
pub open spec fn all_told(items: Seq<JsonView>) -> Seq<JsonView>
    decreases items.len(),
{
    if items.len() == 0 {
        Seq::empty()
    } else if heard(items.last()) is Some || is_result(items.last()) {
        all_told(items.drop_last()).push(items.last())
    } else {
        all_told(items.drop_last())
    }
}

/// All that the assistant says, one after the other.
pub open spec fn all_said(items: Seq<JsonView>) -> Seq<char>
    decreases items.len(),
{
    if items.len() == 0 {
        Seq::empty()
    } else if is_said(items.last()) {
        all_said(items.drop_last()) + words(items.last().field("content"@))
    } else {
        all_said(items.drop_last())
    }
}

/// All items that are calls, in order.
pub open spec fn all_called(items: Seq<JsonView>) -> Seq<JsonView>
    decreases items.len(),
{
    if items.len() == 0 {
        Seq::empty()
    } else if is_called(items.last()) {
        all_called(items.drop_last()).push(items.last())
    } else {
        all_called(items.drop_last())
    }
}

/// The role and the content of the messages of a body by the user and the system, in
/// order.
pub open spec fn plain_in(messages: Seq<JsonView>) -> Seq<(Seq<char>, Seq<char>)>
    decreases messages.len(),
{
    if messages.len() == 0 {
        Seq::empty()
    } else {
        let before = plain_in(messages.drop_last());
        let role = messages.last().field("role"@);
        if role == JsonView::Text("user"@) || role == JsonView::Text("system"@) {
            before.push((text_in(role), text_in(messages.last().field("content"@))))
        } else {
            before
        }
    }
}

/// The messages of a body that are not by the assistant, in order.
pub open spec fn told_in(messages: Seq<JsonView>) -> Seq<JsonView>
    decreases messages.len(),
{
    if messages.len() == 0 {
        Seq::empty()
    } else if messages.last().field("role"@) == JsonView::Text("assistant"@) {
        told_in(messages.drop_last())
    } else {
        told_in(messages.drop_last()).push(messages.last())
    }
}

/// What the messages of a body by the assistant say, one after the other.
pub open spec fn said_in(messages: Seq<JsonView>) -> Seq<char>
    decreases messages.len(),
{
    if messages.len() == 0 {
        Seq::empty()
    } else if messages.last().field("role"@) == JsonView::Text("assistant"@) {
        said_in(messages.drop_last()) + text_in(messages.last().field("content"@))
    } else {
        said_in(messages.drop_last())
    }
}

/// The calls that the messages of a body make, in order.
pub open spec fn called_in(messages: Seq<JsonView>) -> Seq<JsonView>
    decreases messages.len(),
{
    if messages.len() == 0 {
        Seq::empty()
    } else {
        called_in(messages.drop_last()) + list_in(messages.last().field("tool_calls"@))
    }
}

/// The instructions of a request as the message that opens its body.
pub open spec fn instructed(request: JsonView) -> Seq<(Seq<char>, Seq<char>)> {
    if text_in(request.field("instructions"@)).len() > 0 {
        seq![("system"@, text_in(request.field("instructions"@)))]
    } else {
        Seq::empty()
    }
}

/// Whether a text takes a kibibyte or more in UTF-8.
pub open spec fn is_large(text: Seq<char>) -> bool {
    vstd::utf8::encode_utf8(text).len() >= 1024
}

/// Whether a message of a body carries an item that is said to the assistant. The
/// words are there, to the letter; only a large result may be named instead.
pub open spec fn carries(message: JsonView, item: JsonView) -> bool {
    match heard(item) {
        Some((role, text)) => {
            &&& message.field("role"@) == JsonView::Text(role)
            &&& message.field("content"@) == JsonView::Text(text)
        },
        None => {
            let output = words(item.field("output"@));
            &&& is_result(item)
            &&& message.field("role"@) == JsonView::Text("tool"@)
            &&& message.field("tool_call_id"@) == item.field("call_id"@)
            &&& message.field("content"@) == JsonView::Text(output) || is_large(output)
        },
    }
}

/// The tool that an item calls.
pub open spec fn tool_called(item: JsonView) -> ToolView {
    ToolView {
        name: text_in(item.field("name"@)),
        namespace: match item.field("namespace"@) {
            JsonView::Text(namespace) => Some(namespace),
            _ => None,
        },
        custom: item.field("type"@) == JsonView::Text("custom_tool_call"@),
    }
}

/// Whether a call in a body is the call of an item: under its ID, with the name that
/// its tool has on the wire, with its arguments to the letter, and with nothing else.
/// The input of a custom tool is the one field of its arguments.
pub open spec fn carries_call(call: JsonView, item: JsonView) -> bool {
    call == JsonView::object().with("id"@, item.field("call_id"@)).with(
        "type"@,
        JsonView::Text("function"@),
    ).with(
        "function"@,
        JsonView::object().with("name"@, JsonView::Text(alias(tool_called(item)))).with(
            "arguments"@,
            if tool_called(item).custom {
                JsonView::Text(serialized(JsonView::object().with("input"@, item.field("input"@))))
            } else {
                item.field("arguments"@)
            },
        ),
    )
}

/// The words of a content are what is read of it.
pub proof fn lemma_words(content: JsonView)
    ensures
        text_view(content) matches Ok(text) ==> text == words(content),
{
    if let JsonView::Array(parts) = content {
        lemma_parts(parts);
    }
}

proof fn lemma_parts(parts: Seq<JsonView>)
    ensures
        parts_view(parts) matches Ok(text) ==> text == concatenated(
            parts.map_values(|part: JsonView| text_in(part.field("text"@))),
        ),
    decreases parts.len(),
{
    if parts.len() > 0 {
        let texts = parts.map_values(|part: JsonView| text_in(part.field("text"@)));
        lemma_parts(parts.drop_last());
        assert(texts.drop_last() =~= parts.drop_last().map_values(
            |part: JsonView| text_in(part.field("text"@)),
        ));
    }
}

/// The messages that are not by the assistant.
spec fn told(messages: Seq<MessageView>) -> Seq<MessageView>
    decreases messages.len(),
{
    if messages.len() == 0 {
        Seq::empty()
    } else if messages.last() is Assistant {
        told(messages.drop_last())
    } else {
        told(messages.drop_last()).push(messages.last())
    }
}

/// What the assistant says in messages.
spec fn said(messages: Seq<MessageView>) -> Seq<char>
    decreases messages.len(),
{
    if messages.len() == 0 {
        Seq::empty()
    } else {
        match messages.last() {
            MessageView::Assistant { content, .. } => said(messages.drop_last()) + content,
            _ => said(messages.drop_last()),
        }
    }
}

/// What the assistant calls in messages.
spec fn called(messages: Seq<MessageView>) -> Seq<WireCallView>
    decreases messages.len(),
{
    if messages.len() == 0 {
        Seq::empty()
    } else {
        called(messages.drop_last()) + calls_of(messages.last())
    }
}

proof fn lemma_push(messages: Seq<MessageView>, message: MessageView)
    ensures
        told(messages.push(message)) == if message is Assistant {
            told(messages)
        } else {
            told(messages).push(message)
        },
        said(messages.push(message)) == match message {
            MessageView::Assistant { content, .. } => said(messages) + content,
            _ => said(messages),
        },
        called(messages.push(message)) == called(messages) + calls_of(message),
{
    assert(messages.push(message).drop_last() =~= messages);
}

/// The last message of the assistant may say and call more.
proof fn lemma_update(
    messages: Seq<MessageView>,
    i: int,
    message: MessageView,
    text: Seq<char>,
    calls: Seq<WireCallView>,
)
    requires
        0 <= i < messages.len(),
        messages[i] is Assistant,
        message is Assistant,
        message->Assistant_content == messages[i]->Assistant_content + text,
        calls_of(message) == calls_of(messages[i]) + calls,
        forall|k: int| i < k < messages.len() ==> (#[trigger] messages[k]) is Tool,
    ensures
        told(messages.update(i, message)) == told(messages),
        said(messages.update(i, message)) == said(messages) + text,
        called(messages.update(i, message)) == called(messages) + calls,
    decreases messages.len(),
{
    let after = messages.update(i, message);
    let rest = messages.drop_last();
    if i == messages.len() - 1 {
        assert(after.drop_last() =~= rest);
        assert(said(rest) + (messages[i]->Assistant_content + text) =~= said(rest)
            + messages[i]->Assistant_content + text);
        assert(called(rest) + (calls_of(messages[i]) + calls) =~= called(rest) + calls_of(messages[i]) + calls);
    } else {
        assert forall|k: int| i < k < rest.len() implies (#[trigger] rest[k]) is Tool by {
            assert(messages[k] is Tool);
        }
        lemma_update(rest, i, message, text, calls);
        assert(after.drop_last() =~= rest.update(i, message));
        assert(messages[messages.len() - 1] is Tool);
        assert(after.last() == messages.last());
        assert(called(rest) + calls + calls_of(messages.last()) =~= called(rest) + calls_of(messages.last())
            + calls);
    }
}

/// Whether an item left messages as it should.
spec fn is_passed_on(before: Seq<MessageView>, after: Seq<MessageView>, item: JsonView) -> bool {
    &&& match heard(item) {
        Some((role, content)) => told(after) == told(before).push(MessageView::Plain { role, content }),
        None => if is_result(item) {
            &&& told(after).len() > 0
            &&& told(after).drop_last() == told(before)
            &&& told(after).last() matches MessageView::Tool { call_id, content }
            &&& item.field("call_id"@) == JsonView::Text(call_id)
            &&& content == words(item.field("output"@)) || is_large(words(item.field("output"@)))
        } else {
            told(after) == told(before)
        },
    }
    &&& said(after) == if is_said(item) {
        said(before) + words(item.field("content"@))
    } else {
        said(before)
    }
    &&& if is_called(item) {
        &&& called(after).len() > 0
        &&& called(after).drop_last() == called(before)
        &&& carries_call(called(after).last().json(), item)
    } else {
        called(after) == called(before)
    }
}

proof fn lemma_say(history: HistoryView, content: Seq<char>)
    requires
        is_batched(history),
    ensures
        told(history.say(content).messages) == told(history.messages),
        said(history.say(content).messages) == said(history.messages) + content,
        called(history.say(content).messages) == called(history.messages),
{
    let after = history.say(content);
    if history.open.len() > 0 {
        let message = after.messages[history.batch];
        assert(after.messages =~= history.messages.update(history.batch, message));
        assert(calls_of(message) =~= calls_of(history.messages[history.batch]) + Seq::empty());
        lemma_update(history.messages, history.batch, message, content, Seq::empty());
        assert(called(history.messages) + Seq::<WireCallView>::empty() =~= called(history.messages));
    } else {
        let message = assistant(content).with_reasoning(history.reasoning);
        lemma_push(history.messages, message);
        assert(called(history.messages) + calls_of(message) =~= called(history.messages));
    }
}

proof fn lemma_hear(history: HistoryView, role: Seq<char>, content: Seq<char>)
    requires
        is_batched(history),
        role == "user"@ || role == "system"@ || role == "developer"@,
    ensures
        history.hear(role, content) matches Ok(after) ==> {
            &&& told(after.messages) == told(history.messages).push(
                MessageView::Plain {
                    role: if role == "user"@ {
                        "user"@
                    } else {
                        "system"@
                    },
                    content,
                },
            )
            &&& said(after.messages) == said(history.messages)
            &&& called(after.messages) == called(history.messages)
        },
{
    reveal_strlit("user");
    reveal_strlit("system");
    reveal_strlit("developer");
    assert("user"@.len() == 4 && "system"@.len() == 6 && "developer"@.len() == 9);
    if let Ok(after) = history.hear(role, content) {
        lemma_say(history, Seq::empty());
        let said_first = history.say(Seq::empty());
        let message = after.messages.last();
        let before = if role == "user"@ && history.reasoning.len() > 0 {
            said_first.messages
        } else {
            history.messages
        };
        assert(after.messages =~= before.push(message));
        lemma_push(before, message);
        assert(said(history.messages) + Seq::<char>::empty() =~= said(history.messages));
        assert(called(before) + calls_of(message) =~= called(before));
    }
}

proof fn lemma_ask(history: HistoryView, call: WireCallView)
    requires
        is_batched(history),
    ensures
        history.ask(call) matches Ok(after) ==> {
            &&& told(after.messages) == told(history.messages)
            &&& said(after.messages) == said(history.messages)
            &&& called(after.messages) == called(history.messages).push(call)
        },
{
    if let Ok(after) = history.ask(call) {
        let empty = assistant(Seq::empty());
        lemma_push(history.messages, empty);
        let messages = if history.assistant_last() {
            history.messages
        } else {
            history.messages.push(empty)
        };
        let last = messages.len() - 1;
        let message = after.messages[last];
        assert(after.messages =~= messages.update(last, message));
        assert(calls_of(message) =~= calls_of(messages[last]) + seq![call]);
        assert(message->Assistant_content =~= messages[last]->Assistant_content + Seq::<char>::empty());
        lemma_update(messages, last, message, Seq::empty(), seq![call]);
        assert(said(history.messages) + Seq::<char>::empty() =~= said(history.messages));
        assert(said(messages) + Seq::<char>::empty() =~= said(messages));
        assert(called(history.messages) + calls_of(empty) =~= called(history.messages));
        assert(called(messages) + seq![call] =~= called(messages).push(call));
    }
}

/// The fields of a call in a body.
pub proof fn lemma_call_json(call: WireCallView)
    ensures
        call.json().field("id"@) == JsonView::Text(call.id),
        call.json().field("type"@) == JsonView::Text("function"@),
        call.json().field("function"@).field("name"@) == JsonView::Text(call.name),
        call.json().field("function"@).field("arguments"@) == JsonView::Text(call.arguments),
{
    reveal_strlit("id");
    reveal_strlit("type");
    reveal_strlit("function");
    reveal_strlit("name");
    reveal_strlit("arguments");
    assert("id"@.len() == 2 && "type"@.len() == 4 && "function"@.len() == 8);
    assert("name"@.len() == 4 && "arguments"@.len() == 9);
}

proof fn lemma_read(history: HistoryView, item: JsonView)
    requires
        is_batched(history),
    ensures
        history.read(item) matches Ok(after) ==> is_passed_on(history.messages, after.messages, item),
{
    lemma_kinds();
    reveal_strlit("user");
    reveal_strlit("system");
    reveal_strlit("developer");
    reveal_strlit("assistant");
    assert("user"@.len() == 4 && "system"@.len() == 6 && "developer"@.len() == 9 && "assistant"@.len() == 9);
    assert("developer"@[0] != "assistant"@[0]);
    if let Ok(after) = history.read(item) {
        let kind = item.field("type"@);
        lemma_words(item.field("content"@));
        lemma_words(item.field("output"@));
        if kind == JsonView::Text("message"@) || kind == JsonView::Text("agent_message"@) {
            let content = text_view(item.field("content"@))->Ok_0;
            lemma_say(history, content);
            lemma_hear(history, "user"@, content);
            if let Ok(role) = string_view(item, "role"@) {
                if role == "user"@ || role == "system"@ || role == "developer"@ {
                    lemma_hear(history, role, content);
                }
            }
        } else if kind == JsonView::Text("function_call"@) || kind == JsonView::Text("custom_tool_call"@) {
            let custom = kind == JsonView::Text("custom_tool_call"@);
            let tool = tool_called(item);
            let entered = HistoryView { table: registered(history.table, tool), ..history };
            let call = WireCallView {
                id: string_view(item, "call_id"@)->Ok_0,
                name: alias(tool),
                arguments: call_arguments(item, custom)->Ok_0,
            };
            assert(is_batched(entered));
            lemma_ask(entered, call);
            lemma_call_json(call);
            assert(called(history.messages).push(call).drop_last() =~= called(history.messages));
        } else if kind == JsonView::Text("function_call_output"@) || kind == JsonView::Text(
            "custom_tool_call_output"@,
        ) {
            let message = after.messages.last();
            assert(after.messages =~= history.messages.push(message));
            lemma_push(history.messages, message);
            assert(called(history.messages) + calls_of(message) =~= called(history.messages));
            assert(told(history.messages).push(message).drop_last() =~= told(history.messages));
        }
    }
}

/// Whether messages say all of the items, after those that were there before.
spec fn says_all(before: Seq<MessageView>, after: Seq<MessageView>, items: Seq<JsonView>) -> bool {
    let list = all_told(items);
    let calls = all_called(items);
    &&& told(after).len() == told(before).len() + list.len()
    &&& told(after).take(told(before).len() as int) == told(before)
    &&& forall|k: int|
        0 <= k < list.len() ==> is_told_as(told(after)[told(before).len() + k], #[trigger] list[k])
    &&& plain(told(after)) == plain(told(before)) + all_heard(items)
    &&& said(after) == said(before) + all_said(items)
    &&& called(after).len() == called(before).len() + calls.len()
    &&& called(after).take(called(before).len() as int) == called(before)
    &&& forall|k: int|
        0 <= k < calls.len() ==> carries_call(
            called(after)[called(before).len() + k].json(),
            #[trigger] calls[k],
        )
}

/// Whether a message tells an item.
spec fn is_told_as(message: MessageView, item: JsonView) -> bool {
    match heard(item) {
        Some((role, content)) => message == (MessageView::Plain { role, content }),
        None => {
            let output = words(item.field("output"@));
            &&& is_result(item)
            &&& message matches MessageView::Tool { call_id, content }
            &&& item.field("call_id"@) == JsonView::Text(call_id)
            &&& content == output || is_large(output)
        },
    }
}

/// The role and the content of the messages by the user and the system.
spec fn plain(messages: Seq<MessageView>) -> Seq<(Seq<char>, Seq<char>)>
    decreases messages.len(),
{
    if messages.len() == 0 {
        Seq::empty()
    } else {
        match messages.last() {
            MessageView::Plain { role, content } => plain(messages.drop_last()).push((role, content)),
            _ => plain(messages.drop_last()),
        }
    }
}

proof fn lemma_heard_kind(item: JsonView)
    requires
        heard(item) is Some,
    ensures
        !is_result(item),
        !is_said(item),
        !is_called(item),
        heard(item)->Some_0.0 == "user"@ || heard(item)->Some_0.0 == "system"@,
{
    lemma_kinds();
    reveal_strlit("user");
    reveal_strlit("system");
    reveal_strlit("developer");
    reveal_strlit("assistant");
    assert("user"@.len() == 4 && "system"@.len() == 6 && "developer"@.len() == 9 && "assistant"@.len() == 9);
    assert("developer"@[0] != "assistant"@[0]);
}

proof fn lemma_read_all(history: HistoryView, items: Seq<JsonView>)
    requires
        is_batched(history),
    ensures
        history.read_all(items) matches Ok(after) ==> is_batched(after) && says_all(
            history.messages,
            after.messages,
            items,
        ),
    decreases items.len(),
{
    let before = history.messages;
    if items.len() == 0 {
        assert(told(before).take(told(before).len() as int) =~= told(before));
        assert(called(before).take(called(before).len() as int) =~= called(before));
        assert(plain(told(before)) + all_heard(items) =~= plain(told(before)));
        assert(said(before) + all_said(items) =~= said(before));
    } else {
        let rest = items.drop_last();
        let item = items.last();
        lemma_read_all(history, rest);
        if let Ok(between) = history.read_all(rest) {
            lemma_read_batched(between, item);
            lemma_read(between, item);
            if let Ok(after) = between.read(item) {
                let start = told(before).len() as int;
                let list = all_told(items);
                if heard(item) is Some {
                    lemma_heard_kind(item);
                    assert(told(after.messages).drop_last() =~= told(between.messages));
                }
                if heard(item) is Some || is_result(item) {
                    assert(told(after.messages).drop_last() == told(between.messages));
                    assert(told(after.messages).take(start) =~= told(between.messages).take(start));
                    assert forall|k: int| 0 <= k < list.len() implies is_told_as(
                        told(after.messages)[start + k],
                        #[trigger] list[k],
                    ) by {
                        if k < list.len() - 1 {
                            assert(list[k] == all_told(rest)[k]);
                            assert(told(after.messages)[start + k] == told(after.messages).drop_last()[start + k]);
                        }
                    }
                }
                assert(plain(told(after.messages)) =~= plain(told(before)) + all_heard(items));
                assert(said(after.messages) =~= said(before) + all_said(items));
                let first = called(before).len() as int;
                let calls = all_called(items);
                if is_called(item) {
                    assert(called(after.messages).take(first) =~= called(between.messages).take(first));
                    assert forall|k: int| 0 <= k < calls.len() implies carries_call(
                        called(after.messages)[first + k].json(),
                        #[trigger] calls[k],
                    ) by {
                        if k < calls.len() - 1 {
                            assert(calls[k] == all_called(rest)[k]);
                            assert(called(after.messages)[first + k] == called(
                                after.messages,
                            ).drop_last()[first + k]);
                        }
                    }
                }
            }
        }
    }
}

/// The fields of a message in a body.
pub proof fn lemma_message_json(message: MessageView)
    ensures
        message.json().field("role"@) == match message {
            MessageView::Plain { role, .. } => JsonView::Text(role),
            MessageView::Assistant { .. } => JsonView::Text("assistant"@),
            MessageView::Tool { .. } => JsonView::Text("tool"@),
        },
        message.json().field("content"@) == match message {
            MessageView::Plain { content, .. } => JsonView::Text(content),
            MessageView::Assistant { content, .. } => JsonView::Text(content),
            MessageView::Tool { content, .. } => JsonView::Text(content),
        },
        list_in(message.json().field("tool_calls"@)) == calls_json(calls_of(message)),
        message matches MessageView::Tool { call_id, .. } ==> message.json().field("tool_call_id"@)
            == JsonView::Text(call_id),
{
    reveal_strlit("role");
    reveal_strlit("content");
    reveal_strlit("tool_calls");
    reveal_strlit("tool_call_id");
    reveal_strlit("reasoning_content");
    assert("role"@.len() == 4 && "content"@.len() == 7 && "tool_calls"@.len() == 10);
    assert("tool_call_id"@.len() == 12 && "reasoning_content"@.len() == 17);
    assert(calls_json(Seq::empty()) =~= Seq::empty());
    if calls_of(message).len() == 0 {
        assert(calls_of(message) =~= Seq::empty());
    }
}

/// Whether every message by the user or the system is by one of the two.
spec fn roles_hold(messages: Seq<MessageView>) -> bool {
    forall|i: int|
        0 <= i < messages.len() ==> ((#[trigger] messages[i]) matches MessageView::Plain { role, .. } ==> role
            == "user"@ || role == "system"@)
}

/// The messages of a body are those of the history.
proof fn lemma_in_body(messages: Seq<MessageView>)
    requires
        roles_hold(told(messages)),
    ensures
        told_in(messages_json(messages)) == messages_json(told(messages)),
        plain_in(messages_json(messages)) == plain(told(messages)),
        said_in(messages_json(messages)) == said(messages),
        called_in(messages_json(messages)) == calls_json(called(messages)),
    decreases messages.len(),
{
    let list = messages_json(messages);
    reveal_strlit("user");
    reveal_strlit("system");
    reveal_strlit("assistant");
    reveal_strlit("tool");
    assert("user"@.len() == 4 && "system"@.len() == 6 && "assistant"@.len() == 9 && "tool"@.len() == 4);
    assert("user"@[0] != "tool"@[0]);
    if messages.len() == 0 {
        assert(messages_json(told(messages)) =~= Seq::empty());
        assert(calls_json(called(messages)) =~= Seq::empty());
    } else {
        let rest = messages.drop_last();
        let message = messages.last();
        assert(list.drop_last() =~= messages_json(rest));
        assert(list.last() == message.json());
        lemma_message_json(message);
        if message is Assistant {
            assert(roles_hold(told(rest)));
        } else {
            assert(told(messages).drop_last() =~= told(rest));
            assert forall|i: int| 0 <= i < told(rest).len() implies ((
            #[trigger] told(rest)[i]) matches MessageView::Plain { role, .. } ==> role == "user"@ || role
                == "system"@) by {
                assert(told(messages)[i] == told(rest)[i]);
            }
            assert(told(messages)[told(rest).len() as int] == message);
        }
        lemma_in_body(rest);
        assert(messages_json(told(rest).push(message)) =~= messages_json(told(rest)).push(message.json()));
        assert(calls_json(called(rest) + calls_of(message)) =~= calls_json(called(rest)) + calls_json(
            calls_of(message),
        ));
    }
}

proof fn lemma_sent(request: JsonView)
    ensures
        encode_view(request) matches Ok((body, tools)) ==> {
            let items = request.field("input"@)->Array_0;
            let messages = messages_view(request, tools)->Ok_0;
            let start = opened(request, tools).messages;
            &&& body.field("messages"@) == JsonView::Array(messages_json(messages))
            &&& says_all(start, messages, items)
            &&& roles_hold(told(messages))
            &&& told(start) == start
            &&& said(start) == Seq::<char>::empty()
            &&& called(start) == Seq::<WireCallView>::empty()
            &&& plain(start) == instructed(request)
            &&& start.len() == instructed(request).len()
        },
{
    if let Ok((body, tools)) = encode_view(request) {
        let items = request.field("input"@)->Array_0;
        let messages = messages_view(request, tools)->Ok_0;
        let history = opened(request, tools);
        let start = history.messages;
        bodies_carry_their_content(request);
        assert(is_batched(history));
        lemma_read_all(history, items);
        assert(told(Seq::empty()) =~= Seq::empty());
        assert(said(Seq::empty()) =~= Seq::empty());
        assert(called(Seq::empty()) =~= Seq::empty());
        assert(plain(Seq::empty()) =~= Seq::empty());
        if start.len() > 0 {
            assert(start.drop_last() =~= Seq::empty());
            assert(told(start) =~= start);
            assert(called(start) =~= Seq::empty());
            assert(plain(start) =~= instructed(request));
        } else {
            assert(start =~= Seq::empty());
            assert(instructed(request) =~= Seq::empty());
        }
        let list = all_told(items);
        assert forall|i: int| 0 <= i < told(messages).len() implies ((
        #[trigger] told(messages)[i]) matches MessageView::Plain { role, .. } ==> role == "user"@ || role
            == "system"@) by {
            if i < start.len() {
                assert(told(messages)[i] == told(messages).take(start.len() as int)[i]);
            } else {
                let k = i - start.len();
                assert(is_told_as(told(messages)[start.len() + k], list[k]));
                if heard(list[k]) is Some {
                    lemma_heard_kind(list[k]);
                }
            }
        }
    }
}

proof fn lemma_told_holds(messages: Seq<MessageView>, i: int)
    requires
        0 <= i < messages.len(),
        !(messages[i] is Assistant),
    ensures
        told(messages).contains(messages[i]),
    decreases messages.len(),
{
    let rest = messages.drop_last();
    if i < rest.len() {
        lemma_told_holds(rest, i);
        assert(told(rest).contains(rest[i]));
        let k = choose|k: int| 0 <= k < told(rest).len() && told(rest)[k] == messages[i];
        assert(told(messages)[k] == messages[i]);
    } else {
        assert(told(messages)[told(rest).len() as int] == messages[i]);
    }
}

/// No message of the user or the system is taken for a result.
pub proof fn lemma_roles(request: JsonView)
    ensures
        encode_view(request) matches Ok((_, tools)) ==> {
            let messages = messages_view(request, tools)->Ok_0;
            forall|i: int|
                0 <= i < messages.len() ==> ((#[trigger] messages[i]) matches MessageView::Plain { role, .. }
                    ==> role != "tool"@)
        },
{
    if let Ok((_, tools)) = encode_view(request) {
        let messages = messages_view(request, tools)->Ok_0;
        lemma_sent(request);
        reveal_strlit("user");
        reveal_strlit("system");
        reveal_strlit("tool");
        assert("user"@.len() == 4 && "system"@.len() == 6 && "tool"@.len() == 4 && "user"@[0] != "tool"@[0]);
        assert forall|i: int| 0 <= i < messages.len() implies ((
        #[trigger] messages[i]) matches MessageView::Plain { role, .. } ==> role != "tool"@) by {
            if messages[i] is Plain {
                lemma_told_holds(messages, i);
                let k = choose|k: int| 0 <= k < told(messages).len() && told(messages)[k] == messages[i];
                assert(told(messages)[k] is Plain);
            }
        }
    }
}

/// Every message of the user and of the system is sent, each as a message of its own,
/// in order, with its role and all of its words: after the instructions, the plain
/// messages of a body are those of the history, no more and no fewer.
pub proof fn every_message_is_sent(request: JsonView)
    ensures
        encode_view(request) matches Ok((body, _)) ==> plain_in(list_in(body.field("messages"@))) == instructed(
            request,
        ) + all_heard(list_in(request.field("input"@))),
{
    if let Ok((body, tools)) = encode_view(request) {
        lemma_sent(request);
        lemma_in_body(messages_view(request, tools)->Ok_0);
    }
}

/// Everything that is said to the assistant, by the user, by the system or as a
/// result, is sent as a message of its own, in the order of the history.
pub proof fn everything_told_is_sent_in_order(request: JsonView)
    ensures
        encode_view(request) matches Ok((body, _)) ==> {
            let sent = told_in(list_in(body.field("messages"@)));
            let list = all_told(list_in(request.field("input"@)));
            let start = instructed(request).len();
            &&& sent.len() == start + list.len()
            &&& forall|k: int| 0 <= k < list.len() ==> carries(sent[start + k], #[trigger] list[k])
        },
{
    if let Ok((body, tools)) = encode_view(request) {
        let messages = messages_view(request, tools)->Ok_0;
        let list = all_told(list_in(request.field("input"@)));
        let start = instructed(request).len();
        lemma_sent(request);
        lemma_in_body(messages);
        assert forall|k: int| 0 <= k < list.len() implies carries(
            messages_json(told(messages))[start + k],
            #[trigger] list[k],
        ) by {
            assert(is_told_as(told(messages)[start + k], list[k]));
            lemma_message_json(told(messages)[start + k]);
        }
    }
}

/// Everything that the assistant said is sent as said by the assistant, to the letter
/// and in order.
pub proof fn everything_said_is_sent(request: JsonView)
    ensures
        encode_view(request) matches Ok((body, _)) ==> said_in(list_in(body.field("messages"@))) == all_said(
            list_in(request.field("input"@)),
        ),
{
    if let Ok((body, tools)) = encode_view(request) {
        lemma_sent(request);
        lemma_in_body(messages_view(request, tools)->Ok_0);
        assert(Seq::<char>::empty() + all_said(list_in(request.field("input"@))) =~= all_said(
            list_in(request.field("input"@)),
        ));
    }
}

/// Every call of the history is sent, once, in order, with its ID, the name of its
/// tool and its arguments.
pub proof fn every_call_is_sent(request: JsonView)
    ensures
        encode_view(request) matches Ok((body, _)) ==> {
            let sent = called_in(list_in(body.field("messages"@)));
            let calls = all_called(list_in(request.field("input"@)));
            &&& sent.len() == calls.len()
            &&& forall|k: int| 0 <= k < calls.len() ==> carries_call(sent[k], #[trigger] calls[k])
        },
{
    if let Ok((body, tools)) = encode_view(request) {
        lemma_sent(request);
        lemma_in_body(messages_view(request, tools)->Ok_0);
    }
}

} // verus!
