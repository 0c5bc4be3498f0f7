//! What comes out of a completion, told from the chunks that went in.

use vstd::prelude::*;

use crate::calls::{blank_call, fragment_view, is_first, located, CallView, MAX_CALLS};
use crate::completion::{
    call_deltas, delta_adds_content, indexed, whole_delta, with_deltas, CompletionView,
};
use crate::dispatch::{dispatched, dispatched_call, is_advertised, resolved};
use crate::error::ErrorView;
use crate::event::{EventView, ItemView};
use crate::json::JsonView;
use crate::laws::chunks::{
    arguments_of, assembled, call_items, calls_are_handed_over_once, concatenated, handed_over, is_id_of,
    lemma_assembled, lemma_deltas_follow, lemma_no_error, lemma_pieces, list_in, names_of, pieces,
    report_no_error, run, text_in,
};
use crate::laws::completion::{is_call_item, lemma_deltas, lemma_handed_over};
use crate::tools::{starts_name, ToolView};
use crate::wire::parsed;

verus! {

/// The choices of all chunks, in order.
pub open spec fn all_choices(chunks: Seq<JsonView>) -> Seq<JsonView>
    decreases chunks.len(),
{
    if chunks.len() == 0 {
        Seq::empty()
    } else {
        all_choices(chunks.drop_last()) + list_in(chunks.last().field("choices"@))
    }
}

/// The first complete message among choices.
pub open spec fn first_message(choices: Seq<JsonView>) -> Option<JsonView>
    decreases choices.len(),
{
    if choices.len() == 0 {
        None
    } else {
        match first_message(choices.drop_last()) {
            Some(message) => Some(message),
            None => match choices.last().field("message"@) {
                JsonView::Null => None,
                message => Some(message),
            },
        }
    }
}

/// The text that the deltas of choices bring under a name.
pub open spec fn streamed(choices: Seq<JsonView>, name: Seq<char>) -> Seq<char>
    decreases choices.len(),
{
    if choices.len() == 0 {
        Seq::empty()
    } else {
        streamed(choices.drop_last(), name) + text_in(choices.last().field("delta"@).field(name))
    }
}

/// The fragments of calls that the deltas of choices bring.
pub open spec fn streamed_calls(choices: Seq<JsonView>) -> Seq<JsonView>
    decreases choices.len(),
{
    if choices.len() == 0 {
        Seq::empty()
    } else {
        streamed_calls(choices.drop_last()) + list_in(choices.last().field("delta"@).field("tool_calls"@))
    }
}

/// The text that chunks bring under a name: that of the complete message, or those of
/// all deltas, one after the other.
pub open spec fn brought(chunks: Seq<JsonView>, name: Seq<char>) -> Seq<char> {
    let choices = all_choices(chunks);
    match first_message(choices) {
        Some(message) => text_in(message.field(name)),
        None => streamed(choices, name),
    }
}

/// Whether a completion holds what choices brought.
spec fn holds(completion: CompletionView, choices: Seq<JsonView>, tools: Map<Seq<char>, ToolView>) -> bool {
    let content = streamed(choices, "content"@);
    let reasoning = streamed(choices, "reasoning_content"@);
    let deltas = streamed_calls(choices);
    &&& completion.message == first_message(choices)
    &&& completion.message is Some ==> !completion.has_delta_content
    &&& !completion.has_delta_content ==> content.len() == 0 && reasoning.len() == 0 && deltas.len() == 0
    &&& match completion.message {
        None => {
            &&& completion.text == content
            &&& completion.reasoning == reasoning
            &&& with_deltas(Map::empty(), deltas, tools) == (completion.calls, Ok::<(), ErrorView>(()))
        },
        Some(message) => {
            &&& completion.text == text_in(message.field("content"@))
            &&& completion.reasoning == text_in(message.field("reasoning_content"@))
            &&& whole_delta(message) matches Ok(delta)
            &&& with_deltas(Map::empty(), call_deltas(delta), tools) == (
                completion.calls,
                Ok::<(), ErrorView>(()),
            )
        },
    }
}

proof fn lemma_whole_texts(message: JsonView)
    ensures
        whole_delta(message) matches Ok(delta) ==> delta.field("content"@) == message.field("content"@)
            && delta.field("reasoning_content"@) == message.field("reasoning_content"@),
{
    reveal_strlit("content");
    reveal_strlit("reasoning_content");
    reveal_strlit("tool_calls");
    assert("content"@.len() == 7 && "reasoning_content"@.len() == 17 && "tool_calls"@.len() == 10);
}

proof fn lemma_choice(
    completion: CompletionView,
    choices: Seq<JsonView>,
    choice: JsonView,
    tools: Map<Seq<char>, ToolView>,
)
    requires
        holds(completion, choices, tools),
    ensures
        completion.with_choice(choice, tools) matches (after, Ok(_)) ==> holds(after, choices.push(choice), tools),
{
    if let (after, Ok(_)) = completion.with_choice(choice, tools) {
        let delta = choice.field("delta"@);
        let message = choice.field("message"@);
        let content = text_in(delta.field("content"@));
        let reasoning = text_in(delta.field("reasoning_content"@));
        let list = list_in(delta.field("tool_calls"@));
        let deltas = streamed_calls(choices);
        assert(choices.push(choice).drop_last() =~= choices);
        assert(streamed(choices, "content"@) + Seq::<char>::empty() =~= streamed(choices, "content"@));
        assert(streamed(choices, "reasoning_content"@) + Seq::<char>::empty() =~= streamed(
            choices,
            "reasoning_content"@,
        ));
        assert(deltas + Seq::<JsonView>::empty() =~= deltas);
        if !(message is Null) {
            assert(!delta.has("content"@) && !delta.has("reasoning_content"@) && !delta.has("tool_calls"@));
        } else if !delta_adds_content(delta) {
            assert(content =~= Seq::empty());
            assert(reasoning =~= Seq::empty());
            assert(list =~= Seq::empty());
        }
        if message is Null {
            assert(list == call_deltas(delta));
            if completion.message is None {
                lemma_deltas_follow(Map::empty(), deltas, list, tools);
            } else {
                assert(completion.text + content =~= completion.text);
                assert(completion.reasoning + reasoning =~= completion.reasoning);
            }
        } else if completion.message is None {
            lemma_whole_texts(message);
            assert(completion.text =~= Seq::empty());
            assert(completion.reasoning =~= Seq::empty());
            assert(deltas =~= Seq::empty());
            assert(with_deltas(Map::empty(), deltas, tools).0 == Map::<int, CallView>::empty());
            assert(completion.text + text_in(message.field("content"@)) =~= text_in(message.field("content"@)));
            assert(completion.reasoning + text_in(message.field("reasoning_content"@)) =~= text_in(
                message.field("reasoning_content"@),
            ));
        }
    }
}

proof fn lemma_choices(
    completion: CompletionView,
    before: Seq<JsonView>,
    choices: Seq<JsonView>,
    tools: Map<Seq<char>, ToolView>,
)
    requires
        holds(completion, before, tools),
    ensures
        completion.with_choices(choices, tools) matches (after, Ok(_)) ==> holds(after, before + choices, tools),
    decreases choices.len(),
{
    if choices.len() == 0 {
        assert(before + choices =~= before);
    } else {
        let rest = choices.drop_last();
        lemma_choices(completion, before, rest, tools);
        if let (between, Ok(_)) = completion.with_choices(rest, tools) {
            lemma_choice(between, before + rest, choices.last(), tools);
            assert((before + rest).push(choices.last()) =~= before + choices);
        }
    }
}

proof fn lemma_run(chunks: Seq<JsonView>, tools: Map<Seq<char>, ToolView>)
    requires
        report_no_error(chunks),
    ensures
        run(chunks, tools) matches (completion, Ok(_)) ==> holds(completion, all_choices(chunks), tools),
    decreases chunks.len(),
{
    if chunks.len() > 0 {
        let rest = chunks.drop_last();
        let chunk = chunks.last();
        lemma_no_error(chunks);
        lemma_run(rest, tools);
        if let (before, Ok(_)) = run(rest, tools) {
            if let (after, Ok(_)) = before.updated(chunk, tools) {
                let named = before.with_usage(chunk).0.identified(chunk).0;
                assert(holds(named, all_choices(rest), tools));
                lemma_choices(named, all_choices(rest), list_in(chunk.field("choices"@)), tools);
            }
        }
    }
}

/// A completion holds every text that its chunks bring, all of it and in order: what
/// is said, and what is thought.
pub proof fn texts_are_kept(chunks: Seq<JsonView>, tools: Map<Seq<char>, ToolView>)
    requires
        report_no_error(chunks),
    ensures
        run(chunks, tools) matches (completion, Ok(_)) ==> {
            &&& completion.text == brought(chunks, "content"@)
            &&& completion.reasoning == brought(chunks, "reasoning_content"@)
        },
{
    lemma_run(chunks, tools);
}

/// What events report for good as thought.
pub open spec fn thoughts(events: Seq<EventView>) -> Seq<Seq<char>>
    decreases events.len(),
{
    if events.len() == 0 {
        Seq::empty()
    } else {
        match events.last() {
            EventView::OutputItemDone(ItemView::Reasoning { content, .. }) => thoughts(events.drop_last()).push(
                content,
            ),
            _ => thoughts(events.drop_last()),
        }
    }
}

/// What events report for good as said.
pub open spec fn sayings(events: Seq<EventView>) -> Seq<Seq<Seq<char>>>
    decreases events.len(),
{
    if events.len() == 0 {
        Seq::empty()
    } else {
        match events.last() {
            EventView::OutputItemDone(ItemView::Message { content, .. }) => sayings(events.drop_last()).push(
                content,
            ),
            _ => sayings(events.drop_last()),
        }
    }
}

/// A text as the only one, where there is one.
pub open spec fn unless_empty(text: Seq<char>) -> Seq<Seq<char>> {
    if text.len() == 0 {
        Seq::empty()
    } else {
        seq![text]
    }
}

/// Whether events report a thought and a text, each once and whole.
pub open spec fn report(events: Seq<EventView>, reasoning: Seq<char>, text: Seq<char>) -> bool {
    &&& thoughts(events) == unless_empty(reasoning)
    &&& sayings(events) == if text.len() == 0 {
        Seq::empty()
    } else {
        seq![seq![text]]
    }
}

proof fn lemma_reports_follow(events: Seq<EventView>, more: Seq<EventView>)
    ensures
        thoughts(events + more) == thoughts(events) + thoughts(more),
        sayings(events + more) == sayings(events) + sayings(more),
    decreases more.len(),
{
    if more.len() == 0 {
        assert(events + more =~= events);
        assert(thoughts(events) + thoughts(more) =~= thoughts(events));
        assert(sayings(events) + sayings(more) =~= sayings(events));
    } else {
        lemma_reports_follow(events, more.drop_last());
        assert((events + more).drop_last() =~= events + more.drop_last());
        assert(thoughts(events + more) =~= thoughts(events) + thoughts(more));
        assert(sayings(events + more) =~= sayings(events) + sayings(more));
    }
}

proof fn lemma_calls_report_nothing(calls: Map<int, CallView>, count: nat, tools: Map<Seq<char>, ToolView>)
    ensures
        dispatched(calls, count, tools) matches Ok(events) ==> thoughts(events).len() == 0 && sayings(events).len()
            == 0,
    decreases count,
{
    if count > 0 {
        lemma_calls_report_nothing(calls, (count - 1) as nat, tools);
        if let Ok(events) = dispatched(calls, count, tools) {
            let before = dispatched(calls, (count - 1) as nat, tools)->Ok_0;
            if calls.dom().contains(count - 1) {
                let item = dispatched_call(calls, count - 1, tools)->Ok_0;
                assert(is_call_item(item));
                let added = before.push(EventView::OutputItemAdded(item));
                assert(added.drop_last() =~= before);
                assert(events.drop_last() =~= added);
                assert(thoughts(added) == thoughts(before));
                assert(sayings(added) == sayings(before));
            }
        }
    }
}

proof fn lemma_finish_reports(completion: CompletionView, tools: Map<Seq<char>, ToolView>)
    ensures
        completion.finished(tools) matches Ok(events) ==> report(events, completion.reasoning, completion.text),
{
    if let Ok(events) = completion.finished(tools) {
        let none = Seq::<EventView>::empty();
        let thought = completion.reasoning_events();
        let said = completion.message_events();
        let end = seq![events.last()];
        assert(thoughts(none) == Seq::<Seq<char>>::empty());
        assert(sayings(none) == Seq::<Seq<Seq<char>>>::empty());
        assert(report(thought, completion.reasoning, Seq::empty())) by {
            if thought.len() > 0 {
                assert(thought.drop_last().drop_last() =~= none);
                assert(thoughts(thought.drop_last()) == Seq::<Seq<char>>::empty());
                assert(sayings(thought.drop_last()) == Seq::<Seq<Seq<char>>>::empty());
                assert(thoughts(thought) =~= seq![completion.reasoning]);
            }
        }
        assert(report(said, Seq::empty(), completion.text)) by {
            if said.len() > 0 {
                assert(said.drop_last() =~= none);
                assert(sayings(said) =~= seq![seq![completion.text]]);
            }
        }
        let calls = if completion.is_cut_off() {
            none
        } else {
            dispatched(completion.calls, MAX_CALLS as nat, tools)->Ok_0
        };
        lemma_calls_report_nothing(completion.calls, MAX_CALLS as nat, tools);
        assert(thoughts(calls) =~= Seq::empty());
        assert(sayings(calls) =~= Seq::empty());
        assert(report(end, Seq::empty(), Seq::empty())) by {
            assert(end.drop_last() =~= none);
        }
        assert(events =~= thought + calls + said + end);
        lemma_reports_follow(thought, calls);
        lemma_reports_follow(thought + calls, said);
        lemma_reports_follow(thought + calls + said, end);
        assert(thoughts(events) =~= thoughts(thought));
        assert(sayings(events) =~= sayings(said));
    }
}

/// At its end a completion reports all that its chunks thought, as one item, and all
/// that they said, as one message, whether it was cut off or not; and nothing where
/// they brought nothing.
pub proof fn texts_are_reported(chunks: Seq<JsonView>, tools: Map<Seq<char>, ToolView>)
    requires
        report_no_error(chunks),
        run(chunks, tools).1 is Ok,
    ensures
        run(chunks, tools).0.finished(tools) matches Ok(events) ==> report(
            events,
            brought(chunks, "reasoning_content"@),
            brought(chunks, "content"@),
        ),
{
    texts_are_kept(chunks, tools);
    lemma_finish_reports(run(chunks, tools).0, tools);
}

/// Events that are no calls hand over none.
pub proof fn lemma_no_call(events: Seq<EventView>, count: int)
    requires
        0 <= count <= events.len(),
        forall|i: int|
            0 <= i < count ==> !((#[trigger] events[i]) matches EventView::OutputItemDone(item) && is_call_item(
                item,
            )),
    ensures
        handed_over(events.take(count)) == Seq::<ItemView>::empty(),
    decreases count,
{
    if count > 0 {
        lemma_no_call(events, count - 1);
        assert(events.take(count).drop_last() =~= events.take(count - 1));
        assert(events.take(count).last() == events[count - 1]);
    }
}

/// Whether an item is the call that an object of a complete message makes: with its
/// ID, of the tool that it names, and with its arguments to the letter; of a custom
/// tool, with the input in them.
pub open spec fn is_call_in(item: ItemView, call: JsonView, tools: Map<Seq<char>, ToolView>) -> bool {
    let function = call.field("function"@);
    let key = text_in(function.field("name"@));
    let written = text_in(function.field("arguments"@));
    &&& tools.dom().contains(key)
    &&& match item {
        ItemView::FunctionCall { call_id, name, namespace, arguments } => {
            &&& !tools[key].custom
            &&& call.field("id"@) == JsonView::Text(call_id)
            &&& name == tools[key].name
            &&& namespace == tools[key].namespace
            &&& arguments == written
        },
        ItemView::CustomToolCall { call_id, name, namespace, input } => {
            &&& tools[key].custom
            &&& call.field("id"@) == JsonView::Text(call_id)
            &&& name == tools[key].name
            &&& namespace == tools[key].namespace
            &&& parsed(written) matches Some(arguments)
            &&& arguments.field("input"@) == JsonView::Text(input)
        },
        _ => false,
    }
}

/// Whether a call holds the ID, the name and the arguments of an object of a complete
/// message.
pub open spec fn is_call_held(held: CallView, call: JsonView) -> bool {
    let name = text_in(call.field("function"@).field("name"@));
    &&& held.id == text_in(call.field("id"@))
    &&& held.arguments == text_in(call.field("function"@).field("arguments"@))
    &&& held.names == if name.len() == 0 {
        Set::empty()
    } else {
        set![name]
    }
}

proof fn lemma_whole_calls(list: Seq<JsonView>, tools: Map<Seq<char>, ToolView>)
    requires
        forall|i: int| 0 <= i < list.len() ==> (#[trigger] list[i]) is Object,
    ensures
        with_deltas(Map::empty(), indexed(list), tools) matches (calls, Ok(_)) ==> {
            &&& list.len() <= MAX_CALLS
            &&& forall|i: int| #[trigger] calls.dom().contains(i) <==> 0 <= i < list.len()
            &&& forall|i: int| 0 <= i < list.len() ==> is_call_held(calls[i], #[trigger] list[i])
        },
    decreases list.len(),
{
    if list.len() > 0 {
        let rest = list.drop_last();
        let index = rest.len() as int;
        let call = list.last();
        assert forall|i: int| 0 <= i < rest.len() implies (#[trigger] rest[i]) is Object by {
            assert(list[i] is Object);
        }
        assert(list[index] is Object);
        lemma_whole_calls(rest, tools);
        assert(indexed(list).drop_last() =~= indexed(rest));
        if let (calls, Ok(_)) = with_deltas(Map::empty(), indexed(list), tools) {
            let before = with_deltas(Map::empty(), indexed(rest), tools).0;
            let delta = indexed(list).last();
            assert(delta == call.with("index"@, JsonView::Integer(index)));
            reveal_strlit("index");
            reveal_strlit("id");
            reveal_strlit("function");
            assert("index"@.len() == 5 && "id"@.len() == 2 && "function"@.len() == 8);
            assert(delta.field("function"@) == call.field("function"@));
            assert(delta.field("id"@) == call.field("id"@));
            assert(delta.has("index"@) && delta.field("index"@) == JsonView::Integer(index));
            let fragment = fragment_view(delta)->Ok_0;
            assert(fragment.index == Some(index));
            assert(!before.dom().contains(index));
            let held = calls[index];
            let name = fragment.name;
            let blank = set![Seq::<char>::empty()];
            if name.len() > 0 {
                let names = crate::calls::extended(blank, name, tools);
                assert forall|n: Seq<char>| names.contains(n) implies n == name by {
                    if exists|b: Seq<char>| #[trigger] blank.contains(b) && n == b + name {
                        let b = choose|b: Seq<char>| #[trigger] blank.contains(b) && n == b + name;
                        assert(b + name =~= name);
                    }
                }
                assert(held.names == names);
                let some = choose|n: Seq<char>| names.contains(n);
                if names =~= Set::empty() {
                    assert(false);
                }
                assert(names.contains(some));
                assert(names =~= set![name]);
            }
            assert(blank_call().arguments + fragment.arguments =~= fragment.arguments);
            assert(is_call_held(held, call));
            assert forall|i: int| 0 <= i < list.len() implies is_call_held(calls[i], #[trigger] list[i]) by {
                if i < index {
                    assert(rest[i] == list[i]);
                    assert(is_call_held(before[i], rest[i]));
                }
            }
        }
    }
}

proof fn lemma_first_items(calls: Map<int, CallView>, n: nat, count: nat, tools: Map<Seq<char>, ToolView>)
    requires
        forall|i: int| #[trigger] calls.dom().contains(i) <==> 0 <= i < n,
    ensures
        ({
            let items = call_items(calls, count, tools);
            &&& items.len() == if count < n {
                count
            } else {
                n
            }
            &&& forall|k: int|
                0 <= k < items.len() ==> #[trigger] items[k] == dispatched_call(calls, k, tools)->Ok_0
        }),
    decreases count,
{
    if count > 0 {
        lemma_first_items(calls, n, (count - 1) as nat, tools);
        assert(calls.dom().contains(count - 1) <==> 0 <= count - 1 < n);
    }
}

proof fn lemma_item_in(calls: Map<int, CallView>, index: int, call: JsonView, tools: Map<Seq<char>, ToolView>)
    requires
        dispatched_call(calls, index, tools) is Ok,
        is_call_held(calls[index], call),
    ensures
        is_call_in(dispatched_call(calls, index, tools)->Ok_0, call, tools),
{
    let held = calls[index];
    let tool = resolved(held.names, tools)->Ok_0;
    let name = choose|name: Seq<char>| is_advertised(held.names, tools, name);
    assert(is_advertised(held.names, tools, name));
    assert(name == text_in(call.field("function"@).field("name"@)));
    assert(tool == tools[name]);
}

/// A complete message is kept whole. For each object of its list of calls there is one
/// call, under the place in the list, with the ID, the name and the arguments of that
/// object, and no other; and a completion that is complete hands them over, one item
/// for each, in the order of the list.
pub proof fn whole_messages_hand_over_their_calls(
    chunks: Seq<JsonView>,
    message: JsonView,
    tools: Map<Seq<char>, ToolView>,
)
    requires
        report_no_error(chunks),
        run(chunks, tools).1 is Ok,
        first_message(all_choices(chunks)) == Some(message),
    ensures
        ({
            let completion = run(chunks, tools).0;
            let list = list_in(message.field("tool_calls"@));
            &&& forall|i: int| #[trigger] completion.calls.dom().contains(i) <==> 0 <= i < list.len()
            &&& forall|i: int|
                0 <= i < list.len() ==> is_call_held(completion.calls[i], #[trigger] list[i])
            &&& !completion.is_cut_off() ==> (completion.finished(tools) matches Ok(events) ==> {
                &&& handed_over(events).len() == list.len()
                &&& forall|i: int|
                    0 <= i < list.len() ==> is_call_in(handed_over(events)[i], #[trigger] list[i], tools)
            })
        }),
{
    let completion = run(chunks, tools).0;
    let list = list_in(message.field("tool_calls"@));
    lemma_run(chunks, tools);
    let delta = whole_delta(message)->Ok_0;
    if message.field("tool_calls"@) is Array {
        reveal_strlit("tool_calls");
        assert(call_deltas(delta) == indexed(list));
        lemma_whole_calls(list, tools);
    } else {
        assert(call_deltas(delta) =~= Seq::empty());
        assert(list =~= Seq::empty());
        assert(completion.calls == Map::<int, CallView>::empty());
    }
    if !completion.is_cut_off() && completion.finished(tools) is Ok {
        let events = completion.finished(tools)->Ok_0;
        calls_are_handed_over_once(completion, tools);
        lemma_first_items(completion.calls, list.len(), MAX_CALLS as nat, tools);
        assert forall|i: int| 0 <= i < list.len() implies is_call_in(
            handed_over(events)[i],
            #[trigger] list[i],
            tools,
        ) by {
            assert(is_call_held(completion.calls[i], list[i]));
            assert(completion.calls.dom().contains(i));
            lemma_handed_over(completion.calls, MAX_CALLS as nat, i, tools);
            lemma_item_in(completion.calls, i, list[i], tools);
        }
    }
}

/// Whether a fragment belongs to the call of an index: it gives that index, or it
/// gives none but the ID that came with that index before.
pub open spec fn goes_to(fragments: Seq<JsonView>, j: int, index: int) -> bool {
    ||| fragments[j].field("index"@) == JsonView::Integer(index)
    ||| {
        &&& !fragments[j].has("index"@)
        &&& fragments[j].field("id"@) matches JsonView::Text(id)
        &&& gives_id(fragments.take(j), index, id)
    }
}

/// Whether a fragment gives an ID along with an index.
pub open spec fn gives_id(fragments: Seq<JsonView>, index: int, id: Seq<char>) -> bool {
    exists|k: int|
        0 <= k < fragments.len() && (#[trigger] fragments[k]).field("index"@) == JsonView::Integer(index)
            && fragments[k].field("id"@) == JsonView::Text(id)
}

/// The fragments that belong to the call of an index, in order.
pub open spec fn parts_of(fragments: Seq<JsonView>, index: int) -> Seq<JsonView>
    decreases fragments.len(),
{
    if fragments.len() == 0 {
        Seq::empty()
    } else if goes_to(fragments, fragments.len() - 1, index) {
        parts_of(fragments.drop_last(), index).push(fragments.last())
    } else {
        parts_of(fragments.drop_last(), index)
    }
}

/// The name that fragments spell.
pub open spec fn spelled_name(parts: Seq<JsonView>) -> Seq<char> {
    concatenated(parts.map_values(|part: JsonView| text_in(part.field("function"@).field("name"@))))
}

/// The arguments that fragments spell.
pub open spec fn spelled_arguments(parts: Seq<JsonView>) -> Seq<char> {
    concatenated(parts.map_values(|part: JsonView| text_in(part.field("function"@).field("arguments"@))))
}

/// Whether fragments give one ID, and that one.
pub open spec fn share_id(parts: Seq<JsonView>, id: Seq<char>) -> bool {
    &&& forall|k: int|
        0 <= k < parts.len() ==> (#[trigger] parts[k]).field("id"@) is Null || parts[k].field("id"@)
            == JsonView::Text(id)
    &&& exists|k: int| 0 <= k < parts.len() && (#[trigger] parts[k]).field("id"@) == JsonView::Text(id)
}

/// Whether an item is the call of a tool that fragments spell.
pub open spec fn is_spelled(item: ItemView, tool: ToolView, parts: Seq<JsonView>) -> bool {
    match item {
        ItemView::FunctionCall { call_id, name, namespace, arguments } => {
            &&& !tool.custom
            &&& share_id(parts, call_id)
            &&& name == tool.name
            &&& namespace == tool.namespace
            &&& arguments == spelled_arguments(parts)
        },
        ItemView::CustomToolCall { call_id, name, namespace, input } => {
            &&& tool.custom
            &&& share_id(parts, call_id)
            &&& name == tool.name
            &&& namespace == tool.namespace
            &&& parsed(spelled_arguments(parts)) matches Some(arguments)
            &&& arguments.field("input"@) == JsonView::Text(input)
        },
        _ => false,
    }
}

/// Whether an item is the call of an advertised tool that fragments spell. Where the
/// name that they spell is advertised, it is that tool.
pub open spec fn is_put_together(item: ItemView, parts: Seq<JsonView>, tools: Map<Seq<char>, ToolView>) -> bool {
    exists|key: Seq<char>| #[trigger]
        tools.dom().contains(key) && (tools.dom().contains(spelled_name(parts)) ==> key == spelled_name(parts))
            && is_spelled(item, tools[key], parts)
}

proof fn lemma_index(delta: JsonView, index: int)
    requires
        fragment_view(delta) is Ok,
    ensures
        fragment_view(delta)->Ok_0.index == Some(index) <==> delta.field("index"@) == JsonView::Integer(index),
        fragment_view(delta)->Ok_0.index is None <==> !delta.has("index"@),
{
}

proof fn lemma_known(deltas: Seq<JsonView>, index: int, id: Seq<char>, tools: Map<Seq<char>, ToolView>)
    requires
        id.len() > 0,
    ensures
        with_deltas(Map::empty(), deltas, tools) matches (calls, Ok(_)) ==> (gives_id(deltas, index, id) <==> (
        calls.dom().contains(index) && calls[index].id == id)),
    decreases deltas.len(),
{
    if deltas.len() > 0 {
        let rest = deltas.drop_last();
        let delta = deltas.last();
        let last = deltas.len() - 1;
        lemma_known(rest, index, id, tools);
        if let (calls, Ok(_)) = with_deltas(Map::empty(), deltas, tools) {
            let before = with_deltas(Map::empty(), rest, tools).0;
            let fragment = fragment_view(delta)->Ok_0;
            let place = located(before, fragment)->Ok_0;
            lemma_index(delta, index);
            lemma_index(delta, place);
            if gives_id(rest, index, id) {
                let k = choose|k: int|
                    0 <= k < rest.len() && (#[trigger] rest[k]).field("index"@) == JsonView::Integer(index)
                        && rest[k].field("id"@) == JsonView::Text(id);
                assert(deltas[k].field("index"@) == JsonView::Integer(index));
                assert(gives_id(deltas, index, id));
            }
            if gives_id(deltas, index, id) {
                let k = choose|k: int|
                    0 <= k < deltas.len() && (#[trigger] deltas[k]).field("index"@) == JsonView::Integer(index)
                        && deltas[k].field("id"@) == JsonView::Text(id);
                if k < last {
                    assert(rest[k].field("index"@) == JsonView::Integer(index));
                    assert(gives_id(rest, index, id));
                }
            }
            if fragment.index is None {
                assert(is_first(before, fragment.id->Some_0, place));
            } else if place == index && delta.field("id"@) == JsonView::Text(id) {
                assert(deltas[last].field("index"@) == JsonView::Integer(index));
                assert(gives_id(deltas, index, id));
            }
            assert(calls == before.insert(place, calls[place]));
        }
    }
}

proof fn lemma_parts(deltas: Seq<JsonView>, index: int, tools: Map<Seq<char>, ToolView>)
    requires
        with_deltas(Map::empty(), deltas, tools).1 is Ok,
    ensures
        ({
            let parts = parts_of(deltas, index);
            let fragments = pieces(deltas, index, tools);
            &&& parts.len() == fragments.len()
            &&& forall|k: int|
                0 <= k < parts.len() ==> fragment_view(#[trigger] parts[k]) == Ok::<_, ErrorView>(fragments[k])
        }),
    decreases deltas.len(),
{
    if deltas.len() > 0 {
        let rest = deltas.drop_last();
        let delta = deltas.last();
        let last = deltas.len() - 1;
        lemma_parts(rest, index, tools);
        let before = with_deltas(Map::empty(), rest, tools).0;
        let fragment = fragment_view(delta)->Ok_0;
        let place = located(before, fragment)->Ok_0;
        lemma_index(delta, index);
        lemma_index(delta, place);
        assert(deltas.take(last) =~= rest);
        lemma_deltas(Map::empty(), rest, tools);
        if fragment.index is None {
            let id = fragment.id->Some_0;
            if id.len() == 0 {
                assert(id =~= Seq::empty());
            }
            lemma_known(rest, index, id, tools);
            assert(is_first(before, id, place));
        }
        assert(goes_to(deltas, last, index) <==> place == index);
        let parts = parts_of(deltas, index);
        let fragments = pieces(deltas, index, tools);
        assert forall|k: int| 0 <= k < parts.len() implies fragment_view(#[trigger] parts[k]) == Ok::<_, ErrorView>(
            fragments[k],
        ) by {
            if k < parts_of(rest, index).len() {
                assert(parts[k] == parts_of(rest, index)[k]);
            }
        }
    }
}

/// The indexes below `count` of calls, in order.
spec fn places_of(calls: Map<int, CallView>, count: nat) -> Seq<int>
    decreases count,
{
    if count == 0 {
        Seq::empty()
    } else if calls.dom().contains(count - 1) {
        places_of(calls, (count - 1) as nat).push(count - 1)
    } else {
        places_of(calls, (count - 1) as nat)
    }
}

proof fn lemma_places(calls: Map<int, CallView>, count: nat, tools: Map<Seq<char>, ToolView>)
    ensures
        ({
            let places = places_of(calls, count);
            let items = call_items(calls, count, tools);
            &&& items.len() == places.len()
            &&& forall|k: int|
                0 <= k < items.len() ==> #[trigger] items[k] == dispatched_call(calls, places[k], tools)->Ok_0
            &&& forall|k: int|
                0 <= k < places.len() ==> 0 <= #[trigger] places[k] < count && calls.dom().contains(places[k])
            &&& forall|j: int, k: int| 0 <= j < k < places.len() ==> #[trigger] places[j] < #[trigger] places[k]
            &&& forall|i: int| 0 <= i < count && #[trigger] calls.dom().contains(i) ==> places.contains(i)
        }),
    decreases count,
{
    if count > 0 {
        let fewer = (count - 1) as nat;
        let places = places_of(calls, count);
        let before = places_of(calls, fewer);
        lemma_places(calls, fewer, tools);
        assert forall|i: int| 0 <= i < count && #[trigger] calls.dom().contains(i) implies places.contains(i) by {
            if i < count - 1 {
                assert(before.contains(i));
                let k = choose|k: int| 0 <= k < before.len() && before[k] == i;
                assert(places[k] == i);
            } else {
                assert(places[places.len() - 1] == i);
            }
        }
    }
}

proof fn lemma_spelled(deltas: Seq<JsonView>, calls: Map<int, CallView>, index: int, tools: Map<Seq<char>, ToolView>)
    requires
        with_deltas(Map::empty(), deltas, tools) == (calls, Ok::<(), ErrorView>(())),
        calls.dom().contains(index),
        dispatched_call(calls, index, tools) is Ok,
    ensures
        is_put_together(dispatched_call(calls, index, tools)->Ok_0, parts_of(deltas, index), tools),
{
    let item = dispatched_call(calls, index, tools)->Ok_0;
    let fragments = pieces(deltas, index, tools);
    let parts = parts_of(deltas, index);
    let call = calls[index];
    lemma_parts(deltas, index, tools);
    lemma_pieces(deltas, index, tools);
    lemma_assembled(fragments, tools);
    assert(assembled(fragments, tools).0 == call);
    assert(names_of(fragments) =~= parts.map_values(
        |part: JsonView| text_in(part.field("function"@).field("name"@)),
    )) by {
        assert forall|k: int| 0 <= k < parts.len() implies (#[trigger] fragments[k]).name == text_in(
            parts[k].field("function"@).field("name"@),
        ) by {
            assert(fragment_view(parts[k]) == Ok::<_, ErrorView>(fragments[k]));
        }
    }
    assert(arguments_of(fragments) =~= parts.map_values(
        |part: JsonView| text_in(part.field("function"@).field("arguments"@)),
    )) by {
        assert forall|k: int| 0 <= k < parts.len() implies (#[trigger] fragments[k]).arguments == text_in(
            parts[k].field("function"@).field("arguments"@),
        ) by {
            assert(fragment_view(parts[k]) == Ok::<_, ErrorView>(fragments[k]));
        }
    }
    let tool = resolved(call.names, tools)->Ok_0;
    let key = choose|name: Seq<char>| is_advertised(call.names, tools, name);
    assert(is_advertised(call.names, tools, key));
    let spelled = spelled_name(parts);
    if tools.dom().contains(spelled) {
        assert(spelled.subrange(0, spelled.len() as int) =~= spelled);
        assert(spelled.is_prefix_of(spelled));
        assert(starts_name(tools, spelled));
        assert(is_advertised(call.names, tools, spelled));
    }
    assert(share_id(parts, call.id)) by {
        assert(is_id_of(fragments, call.id));
        assert forall|k: int| 0 <= k < parts.len() implies (#[trigger] parts[k]).field("id"@) is Null
            || parts[k].field("id"@) == JsonView::Text(call.id) by {
            assert(fragment_view(parts[k]) == Ok::<_, ErrorView>(fragments[k]));
        }
        let k = choose|k: int| 0 <= k < fragments.len() && (#[trigger] fragments[k]).id == Some(call.id);
        assert(fragment_view(parts[k]) == Ok::<_, ErrorView>(fragments[k]));
        assert(parts[k].field("id"@) == JsonView::Text(call.id));
    }
    assert(tools.dom().contains(key));
    assert(is_spelled(item, tools[key], parts));
}

/// The calls that deltas bring in pieces come out put together. There is one item for
/// each index that a fragment belongs to, in the order of the indexes, and each is the
/// call that the fragments of its index spell.
pub proof fn streamed_calls_are_put_together(chunks: Seq<JsonView>, tools: Map<Seq<char>, ToolView>) -> (places:
    Seq<int>)
    requires
        report_no_error(chunks),
        run(chunks, tools).1 is Ok,
        first_message(all_choices(chunks)) is None,
        !run(chunks, tools).0.is_cut_off(),
        run(chunks, tools).0.finished(tools) is Ok,
    ensures
        ({
            let fragments = streamed_calls(all_choices(chunks));
            let items = handed_over(run(chunks, tools).0.finished(tools)->Ok_0);
            &&& items.len() == places.len()
            &&& forall|j: int, k: int| 0 <= j < k < places.len() ==> #[trigger] places[j] < #[trigger] places[k]
            &&& forall|k: int| 0 <= k < places.len() ==> parts_of(fragments, #[trigger] places[k]).len() > 0
            &&& forall|i: int| (#[trigger] parts_of(fragments, i)).len() > 0 ==> places.contains(i)
            &&& forall|k: int|
                0 <= k < places.len() ==> is_put_together(
                    #[trigger] items[k],
                    parts_of(fragments, places[k]),
                    tools,
                )
        }),
{
    let completion = run(chunks, tools).0;
    let calls = completion.calls;
    let fragments = streamed_calls(all_choices(chunks));
    let events = completion.finished(tools)->Ok_0;
    let items = handed_over(events);
    let places = places_of(calls, MAX_CALLS as nat);
    lemma_run(chunks, tools);
    lemma_deltas(Map::empty(), fragments, tools);
    calls_are_handed_over_once(completion, tools);
    lemma_places(calls, MAX_CALLS as nat, tools);
    assert forall|i: int| (#[trigger] parts_of(fragments, i)).len() > 0 <==> calls.dom().contains(i) by {
        lemma_parts(fragments, i, tools);
        lemma_pieces(fragments, i, tools);
    }
    assert forall|k: int| 0 <= k < places.len() implies is_put_together(
        #[trigger] items[k],
        parts_of(fragments, places[k]),
        tools,
    ) by {
        lemma_handed_over(calls, MAX_CALLS as nat, places[k], tools);
        lemma_spelled(fragments, calls, places[k], tools);
    }
    places
}

} // verus!
