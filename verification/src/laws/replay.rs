//! What holds of the items of a completion that a later request carries.

use vstd::prelude::*;

use crate::calls::{CallView, MAX_CALLS};
use crate::completion::{message_item, CompletionView};
use crate::dispatch::{call_item_view, dispatched, dispatched_call, is_advertised, repeats_id, resolved};
use crate::error::ErrorView;
use crate::event::{content_parts, part, text_or_null, EventView, ItemView};
use crate::history::{call_position, custom_arguments, parts_view, text_view, HistoryView};
use crate::json::JsonView;
use crate::laws::chunks::concatenated;
use crate::laws::history::{lemma_kinds, reading_goes_on};
use crate::message::{MessageView, WireCallView};
use crate::tools::{alias, flat_name, registered, ToolView};
use crate::wire::{parsed, serialized};

verus! {

/// The names of the fields of an item differ.
proof fn lemma_field_names()
    ensures
        "type"@ != "name"@,
        "type"@ != "role"@,
        "type"@ != "text"@,
        "name"@ != "role"@,
        "namespace"@ != "arguments"@,
        "call_id"@ != "summary"@,
        "call_id"@ != "content"@,
        "summary"@ != "content"@,
        "type"@.len() == 4,
        "name"@.len() == 4,
        "role"@.len() == 4,
        "text"@.len() == 4,
        "id"@.len() == 2,
        "call_id"@.len() == 7,
        "summary"@.len() == 7,
        "content"@.len() == 7,
        "namespace"@.len() == 9,
        "arguments"@.len() == 9,
        "encrypted_function_args"@.len() == 23,
        "encrypted_content"@.len() == 17,
        "input"@.len() == 5,
        "output"@.len() == 6,
{
    reveal_strlit("type");
    reveal_strlit("name");
    reveal_strlit("role");
    reveal_strlit("text");
    reveal_strlit("id");
    reveal_strlit("call_id");
    reveal_strlit("summary");
    reveal_strlit("content");
    reveal_strlit("namespace");
    reveal_strlit("arguments");
    reveal_strlit("encrypted_function_args");
    reveal_strlit("encrypted_content");
    reveal_strlit("input");
    reveal_strlit("output");
    assert("type"@[0] != "name"@[0]);
    assert("type"@[0] != "role"@[0]);
    assert("type"@[1] != "text"@[1]);
    assert("name"@[0] != "role"@[0]);
    assert("namespace"@[0] != "arguments"@[0]);
    assert("call_id"@[0] != "summary"@[0]);
    assert("call_id"@[1] != "content"@[1]);
    assert("summary"@[0] != "content"@[0]);
}

/// What the assistant thought is replayed word for word.
pub proof fn reasoning_is_replayed(history: HistoryView, id: Seq<char>, content: Seq<char>)
    ensures
        history.read(ItemView::Reasoning { id, content }.json()) == Ok::<HistoryView, ErrorView>(
            HistoryView { reasoning: history.reasoning + content, ..history },
        ),
{
    lemma_field_names();
    let item = ItemView::Reasoning { id, content }.json();
    let parts = seq![part("reasoning_text"@, content)];
    assert(item.field("type"@) == JsonView::Text("reasoning"@));
    assert(item.field("encrypted_content"@) is Null);
    assert(item.field("content"@) == JsonView::Array(parts));
    assert(parts.drop_last() =~= Seq::empty());
    assert(parts_view(parts.drop_last()) == Ok::<Seq<char>, ErrorView>(Seq::empty()));
    assert(parts.last().field("type"@) == JsonView::Text("reasoning_text"@));
    assert(parts.last().field("text"@) == JsonView::Text(content));
    assert(Seq::<char>::empty() + content =~= content);
    assert(text_view(item.field("content"@)) == Ok::<Seq<char>, ErrorView>(content));
}

proof fn lemma_parts(role: Seq<char>, content: Seq<Seq<char>>)
    ensures
        parts_view(content_parts(role, content)) == Ok::<Seq<char>, ErrorView>(concatenated(content)),
    decreases content.len(),
{
    lemma_field_names();
    let parts = content_parts(role, content);
    if content.len() > 0 {
        lemma_parts(role, content.drop_last());
        assert(parts.drop_last() =~= content_parts(role, content.drop_last()));
        assert(parts.last().field("text"@) == JsonView::Text(content.last()));
    }
}

/// What the assistant said is replayed word for word.
pub proof fn messages_are_replayed(history: HistoryView, id: Option<Seq<char>>, content: Seq<Seq<char>>)
    ensures
        history.read(ItemView::Message { id, role: "assistant"@, content }.json()) == Ok::<
            HistoryView,
            ErrorView,
        >(history.say(concatenated(content))),
{
    lemma_field_names();
    lemma_kinds();
    reveal_strlit("assistant");
    reveal_strlit("user");
    assert("assistant"@.len() == 9 && "user"@.len() == 4);
    lemma_parts("assistant"@, content);
    let item = ItemView::Message { id, role: "assistant"@, content }.json();
    assert(item.field("type"@) == JsonView::Text("message"@));
    assert(item.field("role"@) == JsonView::Text("assistant"@));
    assert(item.field("content"@) == JsonView::Array(content_parts("assistant"@, content)));
}

/// A call is replayed as the provider made it: under the same ID, with the name that
/// its tool has on the wire, and with the same arguments. The input of a custom tool
/// is wrapped again.
pub proof fn calls_are_replayed(
    history: HistoryView,
    call: CallView,
    tool: ToolView,
    arguments: Option<JsonView>,
)
    requires
        history.table.dom().contains(alias(tool)),
        history.table[alias(tool)] == tool,
        flat_name(tool).len() > 0,
    ensures
        call_item_view(call, tool, arguments) matches Ok(item) ==> history.read(item.json()) == history.ask(
            WireCallView {
                id: call.id,
                name: alias(tool),
                arguments: match item {
                    ItemView::CustomToolCall { input, .. } => serialized(custom_arguments(input)),
                    _ => call.arguments,
                },
            },
        ),
{
    if let Ok(item) = call_item_view(call, tool, arguments) {
        lemma_field_names();
        lemma_kinds();
        let json = item.json();
        assert(registered(history.table, tool) =~= history.table);
        assert(HistoryView { table: registered(history.table, tool), ..history } == history);
        assert(json.field("name"@) == JsonView::Text(tool.name));
        assert(json.field("namespace"@) == text_or_null(tool.namespace));
        assert(json.field("call_id"@) == JsonView::Text(call.id));
        match item {
            ItemView::CustomToolCall { input, .. } => {
                assert(json.field("type"@) == JsonView::Text("custom_tool_call"@));
                assert(json.field("input"@) == JsonView::Text(input));
                assert(json.field("encrypted_function_args"@) is Null);
            },
            _ => {
                assert(json.field("type"@) == JsonView::Text("function_call"@));
                assert(json.field("arguments"@) == JsonView::Text(call.arguments));
                assert(json.field("encrypted_function_args"@) == JsonView::Array(Seq::empty()));
            },
        }
    }
}

/// The output of a call is replayed as the answer to it.
pub proof fn outputs_are_replayed(history: HistoryView, call_id: Seq<char>, output: Seq<char>)
    ensures
        history.read(ItemView::FunctionCallOutput { call_id: Some(call_id), output }.json()) == history.answer(
            call_id,
            output,
        ),
        history.read(ItemView::CustomToolCallOutput { call_id, output }.json()) == history.answer(
            call_id,
            output,
        ),
{
    lemma_field_names();
    lemma_kinds();
    let function = ItemView::FunctionCallOutput { call_id: Some(call_id), output }.json();
    let custom = ItemView::CustomToolCallOutput { call_id, output }.json();
    assert(function.field("type"@) == JsonView::Text("function_call_output"@));
    assert(function.field("call_id"@) == JsonView::Text(call_id));
    assert(function.field("output"@) == JsonView::Text(output));
    assert(custom.field("type"@) == JsonView::Text("custom_tool_call_output"@));
    assert(custom.field("call_id"@) == JsonView::Text(call_id));
    assert(custom.field("output"@) == JsonView::Text(output));
}

/// The items that events hand to the agent, as a later request carries them.
pub open spec fn recorded(events: Seq<EventView>) -> Seq<JsonView>
    decreases events.len(),
{
    if events.len() == 0 {
        Seq::empty()
    } else {
        match events.last() {
            EventView::OutputItemDone(item) => recorded(events.drop_last()).push(item.json()),
            _ => recorded(events.drop_last()),
        }
    }
}

proof fn lemma_recorded(events: Seq<EventView>, more: Seq<EventView>)
    ensures
        recorded(events + more) == recorded(events) + recorded(more),
    decreases more.len(),
{
    if more.len() == 0 {
        assert(events + more =~= events);
        assert(recorded(events) + recorded(more) =~= recorded(events));
    } else {
        lemma_recorded(events, more.drop_last());
        assert((events + more).drop_last() =~= events + more.drop_last());
        assert(recorded(events + more) =~= recorded(events) + recorded(more));
    }
}

/// The call of that index as the provider made it, the input of a custom tool
/// wrapped again.
pub open spec fn remade_call(calls: Map<int, CallView>, index: int, tools: Map<Seq<char>, ToolView>) -> WireCallView {
    WireCallView {
        id: calls[index].id,
        name: alias(resolved(calls[index].names, tools)->Ok_0),
        arguments: match dispatched_call(calls, index, tools) {
            Ok(ItemView::CustomToolCall { input, .. }) => serialized(custom_arguments(input)),
            _ => calls[index].arguments,
        },
    }
}

/// The calls with indexes below `count`, as the provider made them.
pub open spec fn remade_calls(
    calls: Map<int, CallView>,
    count: nat,
    tools: Map<Seq<char>, ToolView>,
) -> Seq<WireCallView>
    decreases count,
{
    if count == 0 {
        Seq::empty()
    } else if calls.dom().contains(count - 1) {
        remade_calls(calls, (count - 1) as nat, tools).push(remade_call(calls, count - 1, tools))
    } else {
        remade_calls(calls, (count - 1) as nat, tools)
    }
}

/// Whether the tools are known under the names that they have on the wire.
pub open spec fn knows(table: Map<Seq<char>, ToolView>, tools: Map<Seq<char>, ToolView>) -> bool {
    forall|name: Seq<char>| #[trigger]
        tools.dom().contains(name) ==> alias(tools[name]) == name && name.len() > 0 && table.dom().contains(
            name,
        ) && table[name] == tools[name]
}

/// A history where the assistant may speak: all calls are answered, and what it says
/// next is a message of its own.
pub open spec fn is_its_turn(history: HistoryView) -> bool {
    history.open.len() == 0 && history.reasoning.len() == 0 && !history.assistant_last()
}

/// The history after the assistant thought that, and made those calls.
spec fn after_calls(history: HistoryView, reasoning: Seq<char>, calls: Seq<WireCallView>) -> HistoryView {
    if calls.len() == 0 {
        HistoryView { reasoning, ..history }
    } else {
        HistoryView {
            messages: history.messages.push(spoken(Seq::empty(), reasoning, calls)),
            open: calls,
            batch: history.messages.len() as int,
            recalled: Seq::empty(),
            ..history
        }
    }
}

/// A message of the assistant.
pub open spec fn spoken(content: Seq<char>, reasoning: Seq<char>, calls: Seq<WireCallView>) -> MessageView {
    MessageView::Assistant {
        content,
        reasoning: if reasoning.len() > 0 {
            Some(reasoning)
        } else {
            None
        },
        calls,
    }
}

proof fn lemma_remade_id(
    calls: Map<int, CallView>,
    count: nat,
    tools: Map<Seq<char>, ToolView>,
    id: Seq<char>,
)
    requires
        call_position(remade_calls(calls, count, tools), id) is Some,
    ensures
        exists|other: int| 0 <= other < count && #[trigger] calls.dom().contains(other) && calls[other].id == id,
    decreases count,
{
    if count > 0 {
        let before = remade_calls(calls, (count - 1) as nat, tools);
        if calls.dom().contains(count - 1) {
            let all = remade_calls(calls, count, tools);
            assert(all.drop_last() =~= before);
            if all.last().id != id {
                lemma_remade_id(calls, (count - 1) as nat, tools, id);
            }
        } else {
            lemma_remade_id(calls, (count - 1) as nat, tools, id);
        }
    }
}

proof fn lemma_calls_read(
    history: HistoryView,
    reasoning: Seq<char>,
    calls: Map<int, CallView>,
    count: nat,
    tools: Map<Seq<char>, ToolView>,
)
    requires
        is_its_turn(history),
        knows(history.table, tools),
        dispatched(calls, count, tools) is Ok,
    ensures
        (HistoryView { reasoning, ..history }).read_all(recorded(dispatched(calls, count, tools)->Ok_0)) == Ok::<
            HistoryView,
            ErrorView,
        >(after_calls(history, reasoning, remade_calls(calls, count, tools))),
    decreases count,
{
    let start = HistoryView { reasoning, ..history };
    let events = dispatched(calls, count, tools)->Ok_0;
    if count > 0 {
        let index = count - 1;
        let before = dispatched(calls, index as nat, tools)->Ok_0;
        let made = remade_calls(calls, index as nat, tools);
        lemma_calls_read(history, reasoning, calls, index as nat, tools);
        if calls.dom().contains(index) {
            let item = dispatched_call(calls, index, tools)->Ok_0;
            let call = calls[index];
            let tool = resolved(call.names, tools)->Ok_0;
            let name = choose|name: Seq<char>| is_advertised(call.names, tools, name);
            assert(is_advertised(call.names, tools, name));
            assert(tools.dom().contains(name) && tools[name] == tool);
            assert(flat_name(tool).len() > 0);
            let between = after_calls(history, reasoning, made);
            assert(between.table == history.table);
            calls_are_replayed(between, call, tool, parsed(call.arguments));
            let more = events.drop_last();
            assert(more.drop_last() =~= before);
            assert(recorded(more) == recorded(before));
            assert(recorded(events) == recorded(before).push(item.json()));
            assert(recorded(events).drop_last() =~= recorded(before));
            let remade = remade_call(calls, index, tools);
            assert(between.open == made);
            if call_position(made, call.id) is Some {
                lemma_remade_id(calls, index as nat, tools, call.id);
                assert(repeats_id(calls, index));
            }
            assert(between.assistant_last() == (made.len() > 0));
            assert(Seq::<char>::empty() + reasoning =~= reasoning);
            let after = between.ask(remade)->Ok_0;
            assert(made.push(remade) == remade_calls(calls, count, tools));
            if made.len() == 0 {
                assert(made =~= Seq::empty());
                assert(Seq::<WireCallView>::empty().push(remade) =~= made.push(remade));
            }
            assert(after.messages =~= history.messages.push(
                spoken(Seq::empty(), reasoning, made.push(remade)),
            ));
            assert(after.reasoning =~= history.reasoning);
            assert(after.recalled =~= Seq::empty());
            assert(after == after_calls(history, reasoning, made.push(remade)));
        }
    }
}

/// What a completion said, thought and called is replayed whole, as one message of
/// the assistant, with the calls in their order and as the provider made them. Of a
/// completion that was cut off, the calls are not; and where it had said nothing, what
/// it thought waits for the next message.
pub proof fn completions_are_replayed(
    history: HistoryView,
    completion: CompletionView,
    tools: Map<Seq<char>, ToolView>,
)
    requires
        is_its_turn(history),
        knows(history.table, tools),
    ensures
        completion.finished(tools) matches Ok(events) ==> {
            let calls = if completion.is_cut_off() {
                Seq::empty()
            } else {
                remade_calls(completion.calls, MAX_CALLS as nat, tools)
            };
            &&& history.read_all(recorded(events)) matches Ok(after)
            &&& after.open == calls
            &&& after.table == history.table
            &&& if calls.len() > 0 || completion.text.len() > 0 {
                &&& after.messages == history.messages.push(
                    spoken(completion.text, completion.reasoning, calls),
                )
                &&& after.reasoning.len() == 0
            } else {
                &&& after.messages == history.messages
                &&& after.reasoning == completion.reasoning
            }
        },
{
    if let Ok(events) = completion.finished(tools) {
        let thought = completion.reasoning_events();
        let said = completion.message_events();
        let start = HistoryView { reasoning: completion.reasoning, ..history };
        assert(history.reasoning =~= Seq::empty());
        assert(recorded(Seq::empty()) == Seq::<JsonView>::empty());

        // The reasoning.
        if completion.reasoning.len() > 0 {
            let id = completion.id + "-reasoning"@;
            let item = ItemView::Reasoning { id, content: completion.reasoning };
            let first = thought.drop_last();
            assert(first.drop_last() =~= Seq::empty());
            assert(recorded(first) == Seq::<JsonView>::empty());
            assert(recorded(thought) =~= seq![item.json()]);
            assert(recorded(thought).drop_last() =~= Seq::empty());
            reasoning_is_replayed(history, id, completion.reasoning);
            assert(history.reasoning + completion.reasoning =~= completion.reasoning);
            assert(history.read_all(recorded(thought).drop_last()) == Ok::<HistoryView, ErrorView>(history));
        } else {
            assert(completion.reasoning =~= Seq::empty());
        }
        assert(history.read_all(recorded(thought)) == Ok::<HistoryView, ErrorView>(start));

        // The calls.
        let (called, calls) = if completion.is_cut_off() {
            (Seq::empty(), Seq::empty())
        } else {
            (
                dispatched(completion.calls, MAX_CALLS as nat, tools)->Ok_0,
                remade_calls(completion.calls, MAX_CALLS as nat, tools),
            )
        };
        if completion.is_cut_off() {
            assert(start.read_all(recorded(called)) == Ok::<HistoryView, ErrorView>(start));
        } else {
            lemma_calls_read(history, completion.reasoning, completion.calls, MAX_CALLS as nat, tools);
        }
        let between = after_calls(history, completion.reasoning, calls);
        assert(start.read_all(recorded(called)) == Ok::<HistoryView, ErrorView>(between));

        // The text.
        let last = events.last();
        let before = thought + called + said;
        assert(events.drop_last() =~= before);
        assert(recorded(events) == recorded(before));
        lemma_recorded(thought + called, said);
        lemma_recorded(thought, called);
        reading_goes_on(history, recorded(thought), recorded(called));
        reading_goes_on(history, recorded(thought) + recorded(called), recorded(said));
        if completion.text.len() > 0 {
            let item = message_item(completion.id, seq![completion.text]);
            assert(said.drop_last() =~= Seq::empty());
            assert(recorded(said) =~= seq![item.json()]);
            assert(recorded(said).drop_last() =~= Seq::empty());
            messages_are_replayed(between, Some(completion.id + "-message"@), seq![completion.text]);
            assert(seq![completion.text].drop_last() =~= Seq::empty());
            assert(concatenated(seq![completion.text].drop_last()) == Seq::<char>::empty());
            assert(concatenated(seq![completion.text]) =~= completion.text);
            assert(between.read_all(recorded(said).drop_last()) == Ok::<HistoryView, ErrorView>(between));
            let after = between.say(completion.text);
            assert(between.read_all(recorded(said)) == Ok::<HistoryView, ErrorView>(after));
            assert(Seq::<char>::empty() + completion.text =~= completion.text);
            assert(after.messages =~= history.messages.push(
                spoken(completion.text, completion.reasoning, calls),
            )) by {
                if calls.len() == 0 {
                    assert(calls =~= Seq::empty());
                }
            }
            if calls.len() == 0 {
                assert(after.open =~= calls);
            }
        } else {
            assert(completion.text =~= Seq::empty());
            assert(between.read_all(recorded(said)) == Ok::<HistoryView, ErrorView>(between));
            if calls.len() == 0 {
                assert(between.open =~= calls);
            }
        }
    }
}

/// What the assistant thought before it was interrupted is kept, as a message of its
/// own, when the user speaks.
pub proof fn unfinished_thoughts_are_kept(history: HistoryView, content: Seq<char>)
    requires
        history.open.len() == 0,
        history.reasoning.len() > 0,
    ensures
        history.hear("user"@, content) matches Ok(after) && after.reasoning.len() == 0 && after.messages
            == history.messages.push(spoken(Seq::empty(), history.reasoning, Seq::empty())).push(
            MessageView::Plain { role: "user"@, content },
        ),
{
    reveal_strlit("user");
    reveal_strlit("developer");
    assert("user"@.len() == 4 && "developer"@.len() == 9);
}

} // verus!
