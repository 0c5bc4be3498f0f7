//! What holds of a completion while it is put together, and when it ends.

use vstd::prelude::*;

use crate::calls::{
    blank_call, fragment_view, is_first, located, taken_elsewhere, text_or_empty, with_delta,
    with_fragment, CallView, FragmentView, MAX_CALLS,
};
use crate::completion::{
    blank_completion, counters_hold, delta_adds_content, message_item, text_events,
    token_usage_view, whole_delta, with_deltas, CompletionView,
};
use crate::dispatch::{dispatched, dispatched_call, is_advertised, resolved};
use crate::error::ErrorView;
use crate::event::{EventView, IncompleteKind, ItemView};
use crate::json::{alike, lemma_alike, JsonView};
use crate::tools::ToolView;
use crate::wire::serialized;

verus! {

pub open spec fn is_call_item(item: ItemView) -> bool {
    item is FunctionCall || item is CustomToolCall
}

/// Whether an event hands a tool call to the agent.
pub open spec fn hands_over_call(event: EventView) -> bool {
    match event {
        EventView::OutputItemAdded(item) => is_call_item(item),
        EventView::OutputItemDone(item) => is_call_item(item),
        _ => false,
    }
}

/// Whether an event says that the completion is over.
pub open spec fn is_terminal(event: EventView) -> bool {
    event is Completed || event is Incomplete
}

/// Whether no event hands over a call or says that the completion is over.
pub open spec fn only_progress(events: Seq<EventView>) -> bool {
    forall|i: int|
        0 <= i < events.len() ==> !hands_over_call(#[trigger] events[i]) && !is_terminal(events[i])
}

/// The text that events report, fragment by fragment.
pub open spec fn streamed_text(events: Seq<EventView>) -> Seq<char>
    decreases events.len(),
{
    if events.len() == 0 {
        Seq::empty()
    } else {
        match events.last() {
            EventView::OutputTextDelta(fragment) => streamed_text(events.drop_last()) + fragment,
            _ => streamed_text(events.drop_last()),
        }
    }
}

/// Texts of events that follow each other follow each other.
pub proof fn lemma_streamed_text(events: Seq<EventView>, more: Seq<EventView>)
    ensures
        streamed_text(events + more) == streamed_text(events) + streamed_text(more),
    decreases more.len(),
{
    if more.len() == 0 {
        assert(events + more =~= events);
        assert(streamed_text(events) + streamed_text(more) =~= streamed_text(events));
    } else {
        lemma_streamed_text(events, more.drop_last());
        assert((events + more).drop_last() =~= events + more.drop_last());
        if let EventView::OutputTextDelta(fragment) = more.last() {
            assert(streamed_text(events) + (streamed_text(more.drop_last()) + fragment) =~= streamed_text(
                events,
            ) + streamed_text(more.drop_last()) + fragment);
        }
    }
}

/// Events that report no text.
pub open spec fn reports_no_text(events: Seq<EventView>) -> bool {
    forall|i: int| 0 <= i < events.len() ==> !((#[trigger] events[i]) is OutputTextDelta)
}

pub proof fn lemma_no_text(events: Seq<EventView>)
    requires
        reports_no_text(events),
    ensures
        streamed_text(events) == Seq::<char>::empty(),
    decreases events.len(),
{
    if events.len() > 0 {
        let before = events.drop_last();
        assert forall|i: int| 0 <= i < before.len() implies !((#[trigger] before[i]) is OutputTextDelta) by {
            assert(before[i] == events[i]);
        }
        lemma_no_text(before);
        assert(!(events[events.len() - 1] is OutputTextDelta));
    }
}

/// Whether a step that adds content keeps to what was said: the text grows by what
/// is reported, and what identifies and measures the completion stays.
pub open spec fn keeps_account(before: CompletionView, after: CompletionView, events: Seq<EventView>) -> bool {
    &&& after.text == before.text + streamed_text(events)
    &&& after.id == before.id
    &&& after.failure == before.failure
    &&& after.usage == before.usage
    &&& after.raw_usage == before.raw_usage
    &&& after.bytes == before.bytes
    &&& only_progress(events)
}

proof fn lemma_text_events(id: Seq<char>, text: Seq<char>, fragment: Seq<char>)
    ensures
        streamed_text(text_events(id, text, fragment)) == fragment,
        only_progress(text_events(id, text, fragment)),
{
    let events = text_events(id, text, fragment);
    assert(streamed_text(Seq::empty()) == Seq::<char>::empty());
    if fragment.len() == 0 {
        assert(fragment =~= Seq::empty());
    } else if text.len() == 0 {
        let added = EventView::OutputItemAdded(message_item(id, Seq::empty()));
        assert(events.drop_last() =~= seq![added]);
        assert(seq![added].drop_last() =~= Seq::empty());
        assert(streamed_text(seq![added]) == Seq::<char>::empty());
        assert(Seq::<char>::empty() + fragment =~= fragment);
    } else {
        assert(events.drop_last() =~= Seq::empty());
        assert(Seq::<char>::empty() + fragment =~= fragment);
    }
}

proof fn lemma_choice(completion: CompletionView, choice: JsonView, tools: Map<Seq<char>, ToolView>)
    ensures
        completion.with_choice(choice, tools) matches (after, Ok(events)) ==> keeps_account(
            completion,
            after,
            events,
        ),
{
    if let (after, Ok(events)) = completion.with_choice(choice, tools) {
        if events.len() == 0 {
            assert(events =~= Seq::empty());
            assert(completion.text + Seq::<char>::empty() =~= completion.text);
        }
        let delta = choice.field("delta"@);
        let message = choice.field("message"@);
        lemma_text_events(
            completion.id,
            completion.text,
            text_or_empty(delta.field("content"@)),
        );
        if let Ok(whole) = whole_delta(message) {
            lemma_text_events(
                completion.id,
                completion.text,
                text_or_empty(whole.field("content"@)),
            );
        }
        assert(completion.text + Seq::<char>::empty() =~= completion.text);
    }
}

proof fn lemma_choices(completion: CompletionView, choices: Seq<JsonView>, tools: Map<Seq<char>, ToolView>)
    ensures
        completion.with_choices(choices, tools) matches (after, Ok(events)) ==> keeps_account(
            completion,
            after,
            events,
        ),
    decreases choices.len(),
{
    if choices.len() == 0 {
        assert(completion.text + streamed_text(Seq::empty()) =~= completion.text);
    } else {
        lemma_choices(completion, choices.drop_last(), tools);
        if let (between, Ok(events)) = completion.with_choices(choices.drop_last(), tools) {
            lemma_choice(between, choices.last(), tools);
            if let (after, Ok(more)) = between.with_choice(choices.last(), tools) {
                lemma_streamed_text(events, more);
                assert(completion.text + streamed_text(events) + streamed_text(more) =~= completion.text + (
                streamed_text(events) + streamed_text(more)));
            }
        }
    }
}

/// A chunk that reports no error only adds: it reports the text that it adds and
/// nothing else of it, hands over no call, and ends nothing. The ID stays once it is
/// there.
pub proof fn chunks_only_add(completion: CompletionView, chunk: JsonView, tools: Map<Seq<char>, ToolView>)
    requires
        chunk.field("error"@) is Null,
    ensures
        completion.updated(chunk, tools) matches (after, Ok(events)) ==> {
            &&& only_progress(events)
            &&& after.text == completion.text + streamed_text(events)
            &&& after.id.len() > 0
            &&& completion.id.len() > 0 ==> after.id == completion.id
            &&& after.failure == completion.failure
            &&& after.bytes == completion.bytes
        },
{
    if let (after, Ok(all)) = completion.updated(chunk, tools) {
        let counted = completion.with_usage(chunk).0;
        let (named, outcome) = counted.identified(chunk);
        let events = outcome->Ok_0;
        let choices = chunk.field("choices"@)->Array_0;
        let more = named.with_choices(choices, tools).1->Ok_0;
        lemma_choices(named, choices, tools);
        assert(reports_no_text(events));
        lemma_no_text(events);
        lemma_streamed_text(events, more);
        assert(streamed_text(all) =~= streamed_text(more));
    }
}

/// The ID of a completion cannot change: a chunk of another one is refused.
pub proof fn foreign_chunks_are_refused(
    completion: CompletionView,
    chunk: JsonView,
    tools: Map<Seq<char>, ToolView>,
)
    requires
        completion.id.len() > 0,
        chunk.field("error"@) is Null,
        !(chunk.field("id"@) is Null),
        chunk.field("id"@) != JsonView::Text(completion.id),
    ensures
        completion.updated(chunk, tools).1 is Err,
{
}

/// A usage report is kept as it came, and the latest counts. A chunk without one
/// changes nothing of it.
pub proof fn usage_is_kept(completion: CompletionView, chunk: JsonView, tools: Map<Seq<char>, ToolView>)
    requires
        chunk.field("error"@) is Null,
    ensures
        completion.updated(chunk, tools) matches (after, Ok(_)) ==> if chunk.field("usage"@) is Object {
            &&& after.raw_usage == Some(chunk.field("usage"@))
            &&& after.usage == token_usage_view(chunk.field("usage"@))
        } else {
            &&& after.raw_usage == completion.raw_usage
            &&& after.usage == completion.usage
        },
{
    if let (after, Ok(all)) = completion.updated(chunk, tools) {
        let counted = completion.with_usage(chunk).0;
        let (named, outcome) = counted.identified(chunk);
        let events = outcome->Ok_0;
        lemma_choices(named, chunk.field("choices"@)->Array_0, tools);
    }
}

/// An absent counter is not a measured zero: there is a count exactly where all
/// three totals were given.
pub proof fn absent_usage_is_not_zero(usage: JsonView)
    requires
        counters_hold(usage),
    ensures
        token_usage_view(usage) is Some <==> !(usage.field("prompt_tokens"@) is Null) && !(usage.field(
            "completion_tokens"@,
        ) is Null) && !(usage.field("total_tokens"@) is Null),
        token_usage_view(usage) matches Some(tokens) ==> tokens.input_tokens >= 0 && tokens.output_tokens >= 0
            && tokens.total_tokens >= 0 && tokens.cached_input_tokens >= 0 && tokens.cache_write_input_tokens
            >= 0 && tokens.reasoning_output_tokens >= 0,
{
}

/// A complete message that is repeated counts once.
pub proof fn repeated_messages_count_once(
    completion: CompletionView,
    message: JsonView,
    delta: JsonView,
    tools: Map<Seq<char>, ToolView>,
)
    ensures
        completion.with_whole(message, delta, tools) matches (after, Ok(_)) ==> after.with_whole(
            message,
            delta,
            tools,
        ) == (after, Ok::<Seq<EventView>, ErrorView>(Seq::empty())),
{
    lemma_alike(message);
}

/// A completion takes its content either from complete messages or from increments,
/// and a message that differs from the one before is refused.
pub proof fn contents_do_not_mix(
    completion: CompletionView,
    message: JsonView,
    delta: JsonView,
    tools: Map<Seq<char>, ToolView>,
)
    ensures
        completion.has_delta_content ==> completion.with_whole(message, delta, tools).1 is Err,
        delta.has_fields() ==> completion.with_whole(message, delta, tools).1 is Err,
        completion.message matches Some(previous) && !alike(previous, message) ==> completion.with_whole(
            message,
            delta,
            tools,
        ).1 is Err,
        completion.message is Some && delta_adds_content(delta)
            ==> completion.with_increment(delta, tools).1 is Err,
{
}

/// What holds of the calls of a completion: every index is in range, and no two
/// calls have one ID.
pub open spec fn calls_hold(calls: Map<int, CallView>) -> bool {
    &&& forall|i: int| #[trigger] calls.dom().contains(i) ==> 0 <= i < MAX_CALLS
    &&& forall|i: int, j: int| #[trigger]
        calls.dom().contains(i) && #[trigger] calls.dom().contains(j) && i != j && calls[i].id.len() > 0
            ==> calls[i].id != calls[j].id
}

proof fn lemma_fragment(calls: Map<int, CallView>, fragment: FragmentView, tools: Map<Seq<char>, ToolView>)
    requires
        calls_hold(calls),
        fragment.index matches Some(index) ==> 0 <= index < MAX_CALLS,
    ensures
        with_fragment(calls, fragment, tools) matches (after, Ok(_)) ==> calls_hold(after),
{
    if let (after, Ok(_)) = with_fragment(calls, fragment, tools) {
        let index = located(calls, fragment)->Ok_0;
        if fragment.index is None {
            let id = fragment.id->Some_0;
            assert(is_first(calls, id, index));
            assert(calls.dom().contains(index));
        }
        assert(0 <= index < MAX_CALLS);
        assert forall|i: int, j: int| #[trigger]
            after.dom().contains(i) && #[trigger] after.dom().contains(j) && i != j && after[i].id.len() > 0 implies after[i].id
            != after[j].id by {
            if let Some(id) = fragment.id {
                assert(!taken_elsewhere(calls, id, index));
                if i == index {
                    assert(calls.dom().contains(j));
                }
                if j == index {
                    assert(calls.dom().contains(i));
                }
            } else {
                if i == index || j == index {
                    if calls.dom().contains(index) {
                        assert(after[index].id == calls[index].id);
                    } else {
                        assert(after[index].id == blank_call().id);
                    }
                }
                if i == index && calls.dom().contains(i) {
                    assert(calls.dom().contains(j));
                }
                if j == index {
                    assert(calls.dom().contains(i));
                }
            }
        }
    }
}

proof fn lemma_delta(calls: Map<int, CallView>, delta: JsonView, tools: Map<Seq<char>, ToolView>)
    requires
        calls_hold(calls),
    ensures
        with_delta(calls, delta, tools) matches (after, Ok(_)) ==> calls_hold(after),
{
    if let Ok(fragment) = fragment_view(delta) {
        lemma_fragment(calls, fragment, tools);
    }
}

/// Fragments leave the calls apart.
pub proof fn lemma_deltas(calls: Map<int, CallView>, deltas: Seq<JsonView>, tools: Map<Seq<char>, ToolView>)
    requires
        calls_hold(calls),
    ensures
        with_deltas(calls, deltas, tools) matches (after, Ok(_)) ==> calls_hold(after),
    decreases deltas.len(),
{
    if deltas.len() > 0 {
        lemma_deltas(calls, deltas.drop_last(), tools);
        if let (between, Ok(_)) = with_deltas(calls, deltas.drop_last(), tools) {
            lemma_delta(between, deltas.last(), tools);
        }
    }
}

proof fn lemma_choices_hold(
    completion: CompletionView,
    choices: Seq<JsonView>,
    tools: Map<Seq<char>, ToolView>,
)
    requires
        calls_hold(completion.calls),
    ensures
        completion.with_choices(choices, tools) matches (after, Ok(_)) ==> calls_hold(after.calls),
    decreases choices.len(),
{
    if choices.len() > 0 {
        lemma_choices_hold(completion, choices.drop_last(), tools);
        if let (between, Ok(_)) = completion.with_choices(choices.drop_last(), tools) {
            let choice = choices.last();
            let delta = choice.field("delta"@);
            if let JsonView::Array(list) = delta.field("tool_calls"@) {
                lemma_deltas(between.calls, list, tools);
            }
            if let Ok(whole) = whole_delta(choice.field("message"@)) {
                if let JsonView::Array(list) = whole.field("tool_calls"@) {
                    lemma_deltas(between.calls, list, tools);
                }
            }
        }
    }
}

/// Chunks keep the calls in range and their IDs apart, from the first one on.
pub proof fn chunks_keep_calls_apart(
    completion: CompletionView,
    chunk: JsonView,
    tools: Map<Seq<char>, ToolView>,
)
    requires
        calls_hold(completion.calls),
    ensures
        calls_hold(blank_completion().calls),
        completion.updated(chunk, tools) matches (after, Ok(_)) ==> calls_hold(after.calls),
{
    if let (after, Ok(_)) = completion.updated(chunk, tools) {
        if chunk.field("error"@) is Null {
            let counted = completion.with_usage(chunk).0;
            let named = counted.identified(chunk).0;
            lemma_choices_hold(named, chunk.field("choices"@)->Array_0, tools);
        }
    }
}

/// The tool that a call item calls.
pub open spec fn called_tool(item: ItemView) -> ToolView {
    match item {
        ItemView::FunctionCall { name, namespace, .. } => ToolView { name, namespace, custom: false },
        ItemView::CustomToolCall { name, namespace, .. } => ToolView { name, namespace, custom: true },
        _ => arbitrary(),
    }
}

/// Whether a call item calls a tool that was advertised.
pub open spec fn calls_advertised(item: ItemView, tools: Map<Seq<char>, ToolView>) -> bool {
    is_call_item(item) && exists|name: Seq<char>| #[trigger]
        tools.dom().contains(name) && tools[name] == called_tool(item)
}

/// The item of an event about an item.
pub open spec fn item_of(event: EventView) -> Option<ItemView> {
    match event {
        EventView::OutputItemAdded(item) => Some(item),
        EventView::OutputItemDone(item) => Some(item),
        _ => None,
    }
}

proof fn lemma_dispatched_call(calls: Map<int, CallView>, index: int, tools: Map<Seq<char>, ToolView>)
    ensures
        dispatched_call(calls, index, tools) matches Ok(item) ==> calls_advertised(item, tools),
{
    if let Ok(item) = dispatched_call(calls, index, tools) {
        let names = calls[index].names;
        let tool = resolved(names, tools)->Ok_0;
        let name = choose|name: Seq<char>| is_advertised(names, tools, name);
        assert(is_advertised(names, tools, name));
        assert(called_tool(item) == tool);
        assert(tools.dom().contains(name) && tools[name] == called_tool(item));
    }
}

/// All calls that are handed over, below that index, call advertised tools.
proof fn lemma_dispatched(calls: Map<int, CallView>, count: nat, tools: Map<Seq<char>, ToolView>)
    ensures
        dispatched(calls, count, tools) matches Ok(events) ==> forall|i: int|
            0 <= i < events.len() ==> (item_of(#[trigger] events[i]) matches Some(item) && calls_advertised(
                item,
                tools,
            )),
    decreases count,
{
    if count > 0 {
        lemma_dispatched(calls, (count - 1) as nat, tools);
        lemma_dispatched_call(calls, count - 1, tools);
    }
}

/// A call that is dispatched is handed over.
pub proof fn lemma_handed_over(
    calls: Map<int, CallView>,
    count: nat,
    index: int,
    tools: Map<Seq<char>, ToolView>,
)
    requires
        dispatched(calls, count, tools) is Ok,
        0 <= index < count,
        calls.dom().contains(index),
    ensures
        dispatched_call(calls, index, tools) is Ok,
        dispatched(calls, count, tools)->Ok_0.contains(
            EventView::OutputItemDone(dispatched_call(calls, index, tools)->Ok_0),
        ),
    decreases count,
{
    let events = dispatched(calls, count, tools)->Ok_0;
    if index < count - 1 {
        let before = dispatched(calls, (count - 1) as nat, tools)->Ok_0;
        lemma_handed_over(calls, (count - 1) as nat, index, tools);
        let done = EventView::OutputItemDone(dispatched_call(calls, index, tools)->Ok_0);
        let i = choose|i: int| 0 <= i < before.len() && before[i] == done;
        assert(events[i] == done);
    } else {
        assert(events[events.len() - 1] == EventView::OutputItemDone(
            dispatched_call(calls, index, tools)->Ok_0,
        ));
    }
}

/// A completion that was cut off hands over no call, whatever it holds: it ends with
/// the event that says so, and what it had thought and said comes before.
pub proof fn cut_off_completions_run_nothing(completion: CompletionView, tools: Map<Seq<char>, ToolView>)
    requires
        completion.is_cut_off(),
    ensures
        completion.finished(tools) matches Ok(events) ==> {
            &&& events.len() > 0
            &&& only_progress(events.drop_last())
            &&& events.last() is Incomplete
            &&& reports_no_text(events)
            &&& completion.reasoning.len() > 0 ==> events.contains(
                EventView::OutputItemDone(
                    ItemView::Reasoning { id: completion.id + "-reasoning"@, content: completion.reasoning },
                ),
            )
            &&& completion.text.len() > 0 ==> events.contains(
                EventView::OutputItemDone(message_item(completion.id, seq![completion.text])),
            )
        },
{
    if let Ok(events) = completion.finished(tools) {
        let thought = completion.reasoning_events();
        let said = completion.message_events();
        assert(events.drop_last() =~= thought + said);
        if completion.reasoning.len() > 0 {
            assert(events[1] == thought[1]);
        }
        if completion.text.len() > 0 {
            assert(events[thought.len() as int] == said[0]);
        }
    }
}

/// A completion that is complete ends with the event that says so, and hands over
/// every call that it holds, and none but calls of advertised tools.
pub proof fn complete_completions_run_advertised_tools(
    completion: CompletionView,
    tools: Map<Seq<char>, ToolView>,
)
    requires
        !completion.is_cut_off(),
    ensures
        completion.finished(tools) matches Ok(events) ==> {
            &&& events.len() > 0
            &&& events.last() is Completed
            &&& reports_no_text(events)
            &&& forall|i: int| 0 <= i < events.len() - 1 ==> !is_terminal(#[trigger] events[i])
            &&& forall|i: int|
                0 <= i < events.len() && hands_over_call(#[trigger] events[i]) ==> calls_advertised(
                    item_of(events[i])->Some_0,
                    tools,
                )
            &&& forall|index: int|
                0 <= index < MAX_CALLS && #[trigger] completion.calls.dom().contains(index) ==> events.contains(
                    EventView::OutputItemDone(dispatched_call(completion.calls, index, tools)->Ok_0),
                )
            &&& completion.text.len() > 0 ==> events.contains(
                EventView::OutputItemDone(message_item(completion.id, seq![completion.text])),
            )
        },
{
    if let Ok(events) = completion.finished(tools) {
        let calls = dispatched(completion.calls, MAX_CALLS as nat, tools)->Ok_0;
        let thought = completion.reasoning_events();
        let said = completion.message_events();
        lemma_dispatched(completion.calls, MAX_CALLS as nat, tools);
        assert forall|i: int| 0 <= i < events.len() - 1 implies !is_terminal(#[trigger] events[i])
            && !(events[i] is OutputTextDelta) && (hands_over_call(events[i]) ==> calls_advertised(
            item_of(events[i])->Some_0,
            tools,
        )) by {
            if i < thought.len() {
                assert(events[i] == thought[i]);
            } else if i < thought.len() + calls.len() {
                assert(events[i] == calls[i - thought.len()]);
                assert(item_of(calls[i - thought.len()]) is Some);
            } else {
                assert(events[i] == said[i - thought.len() - calls.len()]);
            }
        }
        assert forall|index: int|
            0 <= index < MAX_CALLS && #[trigger] completion.calls.dom().contains(index) implies events.contains(
            EventView::OutputItemDone(dispatched_call(completion.calls, index, tools)->Ok_0),
        ) by {
            lemma_handed_over(completion.calls, MAX_CALLS as nat, index, tools);
            let done = EventView::OutputItemDone(dispatched_call(completion.calls, index, tools)->Ok_0);
            let i = choose|i: int| 0 <= i < calls.len() && calls[i] == done;
            assert(events[thought.len() + i] == done);
        }
        if completion.text.len() > 0 {
            assert(events[(thought.len() + calls.len()) as int] == said[0]);
        }
    }
}

/// A chunk that reports an error ends the completion, with the whole chunk in the
/// reason. Where the error is that the context is too long, that is the refusal.
pub proof fn provider_errors_are_reported(
    completion: CompletionView,
    chunk: JsonView,
    tools: Map<Seq<char>, ToolView>,
)
    requires
        !(chunk.field("error"@) is Null),
        completion.with_usage(chunk).1 is Ok,
    ensures
        chunk.field("error"@).field("code"@) == JsonView::Text("context_length_exceeded"@)
            ==> completion.updated(chunk, tools) == (
            completion.with_usage(chunk).0,
            Err::<Seq<EventView>, ErrorView>(ErrorView::ContextWindowExceeded),
        ),
        chunk.field("error"@).field("code"@) != JsonView::Text("context_length_exceeded"@) ==> {
            &&& completion.updated(chunk, tools) matches (_, Ok(events))
            &&& events.len() > 0
            &&& only_progress(events.drop_last())
            &&& events.last() matches EventView::Incomplete { reason, kind, token_usage, .. }
            &&& kind == IncompleteKind::ProviderError
            &&& ("CodeBuddy stream error: "@ + serialized(chunk)).is_prefix_of(reason)
            &&& token_usage == completion.with_usage(chunk).0.usage
        },
{
    let failed = completion.with_usage(chunk).0.failed(chunk, serialized(chunk));
    assert(failed.may_finish());
    cut_off_completions_run_nothing(failed, tools);
    if chunk.field("error"@).field("code"@) != JsonView::Text("context_length_exceeded"@) {
        let events = failed.cut_off_events(failed.usage_text());
        assert(events.last() == failed.cut_off_event(failed.usage_text()));
    }
}

} // verus!
