//! What holds of a completion over all of its chunks.

use vstd::prelude::*;

use crate::calls::{
    blank_call, call_at, extended, fragment_view, located, read_so_far, text_or_empty,
    CallView, FragmentView, MAX_CALLS,
};
use crate::completion::{
    blank_completion, call_deltas, delta_adds_content, message_item, text_events, whole_delta, with_deltas,
    CompletionView, StepView,
};
use crate::dispatch::{dispatched, dispatched_call, is_advertised, resolved};
use crate::error::ErrorView;
use crate::event::{EventView, ItemView};
use crate::json::JsonView;
use crate::laws::completion::{
    calls_hold, chunks_keep_calls_apart, chunks_only_add, complete_completions_run_advertised_tools,
    is_call_item, lemma_handed_over, lemma_streamed_text, reports_no_text, streamed_text,
};
use crate::tools::{starts_name, ToolView};
use crate::wire::parsed;

verus! {

/// The completion after chunks, one after the other, up to the first that is refused,
/// and all events of them.
pub open spec fn run(chunks: Seq<JsonView>, tools: Map<Seq<char>, ToolView>) -> StepView
    decreases chunks.len(),
{
    if chunks.len() == 0 {
        (blank_completion(), Ok(Seq::empty()))
    } else {
        match run(chunks.drop_last(), tools) {
            (completion, Err(error)) => (completion, Err(error)),
            (completion, Ok(events)) => match completion.updated(chunks.last(), tools) {
                (completion, Err(error)) => (completion, Err(error)),
                (completion, Ok(more)) => (completion, Ok(events + more)),
            },
        }
    }
}

/// Whether no chunk reports an error.
pub open spec fn report_no_error(chunks: Seq<JsonView>) -> bool {
    forall|i: int| 0 <= i < chunks.len() ==> (#[trigger] chunks[i]).field("error"@) is Null
}

/// Where no chunk reports an error, neither the last one nor those before it do.
pub proof fn lemma_no_error(chunks: Seq<JsonView>)
    requires
        report_no_error(chunks),
        chunks.len() > 0,
    ensures
        report_no_error(chunks.drop_last()),
        chunks.last().field("error"@) is Null,
{
    let rest = chunks.drop_last();
    assert(chunks[chunks.len() - 1].field("error"@) is Null);
    assert forall|i: int| 0 <= i < rest.len() implies (#[trigger] rest[i]).field("error"@) is Null by {
        assert(rest[i] == chunks[i]);
    }
}

/// Texts, one after the other.
pub open spec fn concatenated(parts: Seq<Seq<char>>) -> Seq<char>
    decreases parts.len(),
{
    if parts.len() == 0 {
        Seq::empty()
    } else {
        concatenated(parts.drop_last()) + parts.last()
    }
}

/// The text that a value is; nothing where it is none.
pub open spec fn text_in(value: JsonView) -> Seq<char> {
    match value {
        JsonView::Text(text) => text,
        _ => Seq::empty(),
    }
}

/// The list that a value is; an empty one where it is none.
pub open spec fn list_in(value: JsonView) -> Seq<JsonView> {
    match value {
        JsonView::Array(items) => items,
        _ => Seq::empty(),
    }
}

/// The delta of a choice that has no complete message.
pub open spec fn increment(choice: JsonView) -> JsonView {
    if choice.field("message"@) is Null {
        choice.field("delta"@)
    } else {
        JsonView::Null
    }
}

/// The text that the deltas of choices bring.
pub open spec fn choices_text(choices: Seq<JsonView>) -> Seq<char>
    decreases choices.len(),
{
    if choices.len() == 0 {
        Seq::empty()
    } else {
        choices_text(choices.drop_last()) + text_or_empty(increment(choices.last()).field("content"@))
    }
}

/// The fragments of calls that the deltas of choices bring.
pub open spec fn choices_calls(choices: Seq<JsonView>) -> Seq<JsonView>
    decreases choices.len(),
{
    if choices.len() == 0 {
        Seq::empty()
    } else {
        choices_calls(choices.drop_last()) + call_deltas(increment(choices.last()))
    }
}

/// The text that the deltas of chunks bring.
pub open spec fn delta_text(chunks: Seq<JsonView>) -> Seq<char>
    decreases chunks.len(),
{
    if chunks.len() == 0 {
        Seq::empty()
    } else {
        delta_text(chunks.drop_last()) + choices_text(chunks.last().field("choices"@)->Array_0)
    }
}

/// The fragments of calls that the deltas of chunks bring.
pub open spec fn delta_calls(chunks: Seq<JsonView>) -> Seq<JsonView>
    decreases chunks.len(),
{
    if chunks.len() == 0 {
        Seq::empty()
    } else {
        delta_calls(chunks.drop_last()) + choices_calls(chunks.last().field("choices"@)->Array_0)
    }
}

/// The text that a completion was given: that of its complete message, or of all
/// deltas.
pub open spec fn given_text(message: Option<JsonView>, chunks: Seq<JsonView>) -> Seq<char> {
    match message {
        Some(message) => text_or_empty(message.field("content"@)),
        None => delta_text(chunks),
    }
}

/// The fragments of calls that a completion was given: those of its complete message,
/// or of all deltas.
pub open spec fn given_calls(message: Option<JsonView>, chunks: Seq<JsonView>) -> Seq<JsonView> {
    match message {
        Some(message) => call_deltas(whole_delta(message)->Ok_0),
        None => delta_calls(chunks),
    }
}

/// Fragments that follow each other are added one after the other.
pub proof fn lemma_deltas_follow(
    calls: Map<int, CallView>,
    deltas: Seq<JsonView>,
    more: Seq<JsonView>,
    tools: Map<Seq<char>, ToolView>,
)
    requires
        with_deltas(calls, deltas, tools).1 is Ok,
    ensures
        with_deltas(calls, deltas + more, tools) == with_deltas(
            with_deltas(calls, deltas, tools).0,
            more,
            tools,
        ),
    decreases more.len(),
{
    if more.len() == 0 {
        assert(deltas + more =~= deltas);
    } else {
        lemma_deltas_follow(calls, deltas, more.drop_last(), tools);
        assert((deltas + more).drop_last() =~= deltas + more.drop_last());
    }
}

/// Whether a completion holds what it was given, where the deltas brought that text
/// and those fragments.
spec fn holds(
    completion: CompletionView,
    text: Seq<char>,
    calls: Seq<JsonView>,
    tools: Map<Seq<char>, ToolView>,
) -> bool {
    &&& completion.message is Some ==> !completion.has_delta_content
    &&& !completion.has_delta_content ==> text.len() == 0 && calls.len() == 0
    &&& match completion.message {
        None => completion.text == text && with_deltas(Map::empty(), calls, tools) == (
            completion.calls,
            Ok::<(), ErrorView>(()),
        ),
        Some(message) => whole_delta(message) matches Ok(delta) && completion.text == text_or_empty(
            message.field("content"@),
        ) && with_deltas(Map::empty(), call_deltas(delta), tools) == (
            completion.calls,
            Ok::<(), ErrorView>(()),
        ),
    }
}

proof fn lemma_whole_content(message: JsonView)
    ensures
        whole_delta(message) matches Ok(delta) ==> delta.field("content"@) == message.field("content"@),
{
    reveal_strlit("content");
    reveal_strlit("tool_calls");
    assert("content"@.len() == 7 && "tool_calls"@.len() == 10);
}

proof fn lemma_choice_holds(
    completion: CompletionView,
    text: Seq<char>,
    calls: Seq<JsonView>,
    choice: JsonView,
    tools: Map<Seq<char>, ToolView>,
)
    requires
        holds(completion, text, calls, tools),
    ensures
        completion.with_choice(choice, tools) matches (after, Ok(_)) ==> holds(
            after,
            text + text_or_empty(increment(choice).field("content"@)),
            calls + call_deltas(increment(choice)),
            tools,
        ),
{
    if let (after, Ok(_)) = completion.with_choice(choice, tools) {
        let delta = increment(choice);
        let content = text_or_empty(delta.field("content"@));
        let list = call_deltas(delta);
        let message = choice.field("message"@);
        if message is Null {
            if completion.message is None {
                lemma_deltas_follow(Map::empty(), calls, list, tools);
            } else {
                assert(content =~= Seq::empty());
                assert(list =~= Seq::empty());
                assert(completion.text + content =~= completion.text);
            }
            if !delta_adds_content(delta) {
                assert(content.len() == 0);
                assert(list.len() == 0);
            }
        } else {
            assert(content =~= Seq::empty());
            assert(list =~= Seq::empty());
            assert(text + content =~= text);
            assert(calls + list =~= calls);
            if completion.message is None {
                lemma_whole_content(message);
                assert(text =~= Seq::empty());
                assert(calls =~= Seq::empty());
                let whole = whole_delta(message)->Ok_0;
                assert(completion.text + text_or_empty(whole.field("content"@)) =~= text_or_empty(
                    message.field("content"@),
                ));
            }
        }
    }
}

proof fn lemma_choices_hold(
    completion: CompletionView,
    text: Seq<char>,
    calls: Seq<JsonView>,
    choices: Seq<JsonView>,
    tools: Map<Seq<char>, ToolView>,
)
    requires
        holds(completion, text, calls, tools),
    ensures
        completion.with_choices(choices, tools) matches (after, Ok(_)) ==> holds(
            after,
            text + choices_text(choices),
            calls + choices_calls(choices),
            tools,
        ),
    decreases choices.len(),
{
    if choices.len() == 0 {
        assert(text + choices_text(choices) =~= text);
        assert(calls + choices_calls(choices) =~= calls);
    } else {
        let rest = choices.drop_last();
        let delta = increment(choices.last());
        lemma_choices_hold(completion, text, calls, rest, tools);
        if let (between, Ok(_)) = completion.with_choices(rest, tools) {
            lemma_choice_holds(
                between,
                text + choices_text(rest),
                calls + choices_calls(rest),
                choices.last(),
                tools,
            );
            assert(text + choices_text(rest) + text_or_empty(delta.field("content"@)) =~= text + choices_text(
                choices,
            ));
            assert(calls + choices_calls(rest) + call_deltas(delta) =~= calls + choices_calls(choices));
        }
    }
}

proof fn lemma_run_holds(chunks: Seq<JsonView>, tools: Map<Seq<char>, ToolView>)
    requires
        report_no_error(chunks),
    ensures
        run(chunks, tools) matches (completion, Ok(_)) ==> holds(
            completion,
            delta_text(chunks),
            delta_calls(chunks),
            tools,
        ) && calls_hold(completion.calls),
    decreases chunks.len(),
{
    if chunks.len() > 0 {
        let rest = chunks.drop_last();
        let chunk = chunks.last();
        lemma_no_error(chunks);
        lemma_run_holds(rest, tools);
        if let (before, Ok(_)) = run(rest, tools) {
            if let (after, Ok(_)) = before.updated(chunk, tools) {
                let named = before.with_usage(chunk).0.identified(chunk).0;
                assert(holds(named, delta_text(rest), delta_calls(rest), tools));
                lemma_choices_hold(
                    named,
                    delta_text(rest),
                    delta_calls(rest),
                    chunk.field("choices"@)->Array_0,
                    tools,
                );
                chunks_keep_calls_apart(before, chunk, tools);
            }
        }
    }
}

/// Whether an event opens a message.
pub open spec fn opens_message(event: EventView) -> bool {
    event matches EventView::OutputItemAdded(item) && item is Message
}

/// Whether events tell a text as they should: in fragments none of which is empty,
/// and with the message opened once, without content, right before the first.
pub open spec fn is_told(id: Seq<char>, events: Seq<EventView>) -> bool {
    &&& forall|i: int|
        0 <= i < events.len() ==> ((#[trigger] events[i]) matches EventView::OutputTextDelta(fragment)
            ==> fragment.len() > 0)
    &&& forall|i: int|
        0 <= i < events.len() && opens_message(#[trigger] events[i]) ==> {
            &&& events[i] == EventView::OutputItemAdded(message_item(id, Seq::empty()))
            &&& i + 1 < events.len()
            &&& events[i + 1] is OutputTextDelta
            &&& reports_no_text(events.take(i))
        }
    &&& forall|i: int, j: int|
        0 <= i < j < events.len() && opens_message(#[trigger] events[i]) ==> !opens_message(
            #[trigger] events[j],
        )
    &&& !reports_no_text(events) ==> exists|i: int| 0 <= i < events.len() && opens_message(#[trigger] events[i])
}

/// Whether events are all that chunks can lead to: the completion has a name, a
/// message is opened, or a fragment of text is there. What was thought and what is
/// called leads to none.
pub open spec fn tells_text_alone(events: Seq<EventView>) -> bool {
    forall|i: int|
        0 <= i < events.len() ==> {
            ||| (#[trigger] events[i]) is Created
            ||| events[i] is ServerModel
            ||| opens_message(events[i])
            ||| events[i] is OutputTextDelta
        }
}

/// Whether events tell what a completion holds so far.
pub open spec fn is_told_so_far(completion: CompletionView, events: Seq<EventView>) -> bool {
    &&& is_told(completion.id, events)
    &&& tells_text_alone(events)
    &&& reports_no_text(events) <==> completion.text.len() == 0
    &&& completion.id.len() == 0 ==> events.len() == 0
}

/// Events that neither open a message nor tell text change nothing of what is told.
pub proof fn lemma_told_on(id: Seq<char>, events: Seq<EventView>, more: Seq<EventView>)
    requires
        is_told(id, events),
        reports_no_text(more),
        forall|i: int| 0 <= i < more.len() ==> !opens_message(#[trigger] more[i]),
    ensures
        is_told(id, events + more),
        reports_no_text(events + more) == reports_no_text(events),
{
    let all = events + more;
    assert forall|i: int| 0 <= i < all.len() implies all[i] == if i < events.len() {
        events[i]
    } else {
        more[i - events.len()]
    } by {}
    assert forall|i: int| 0 <= i < all.len() && opens_message(#[trigger] all[i]) implies {
        &&& all[i] == EventView::OutputItemAdded(message_item(id, Seq::empty()))
        &&& i + 1 < all.len()
        &&& all[i + 1] is OutputTextDelta
        &&& reports_no_text(all.take(i))
    } by {
        assert(opens_message(events[i]));
        assert(all[i + 1] == events[i + 1]);
        assert(all.take(i) =~= events.take(i));
    }
    assert forall|i: int, j: int| 0 <= i < j < all.len() && opens_message(#[trigger] all[i]) implies !opens_message(
        #[trigger] all[j],
    ) by {
        assert(opens_message(events[i]));
        if j < events.len() {
            assert(!opens_message(events[j]));
        }
    }
    if reports_no_text(events) {
        assert(reports_no_text(all));
    } else {
        let k = choose|k: int| 0 <= k < events.len() && (#[trigger] events[k]) is OutputTextDelta;
        assert(all[k] is OutputTextDelta);
        let i = choose|i: int| 0 <= i < events.len() && opens_message(#[trigger] events[i]);
        assert(opens_message(all[i]));
    }
}

proof fn lemma_fragment_told(id: Seq<char>, text: Seq<char>, fragment: Seq<char>, events: Seq<EventView>)
    requires
        is_told(id, events),
        tells_text_alone(events),
        reports_no_text(events) <==> text.len() == 0,
    ensures
        ({
            let all = events + text_events(id, text, fragment);
            &&& is_told(id, all)
            &&& tells_text_alone(all)
            &&& reports_no_text(all) <==> (text + fragment).len() == 0
        }),
{
    let more = text_events(id, text, fragment);
    let all = events + more;
    if fragment.len() == 0 {
        assert(all =~= events);
    } else {
        let last = all.len() - 1;
        assert(all[last] == EventView::OutputTextDelta(fragment));
        assert(!reports_no_text(all));
        assert forall|i: int| 0 <= i < events.len() implies all[i] == events[i] by {}
        if text.len() == 0 {
            let opening = events.len() as int;
            assert(all[opening] == more[0]);
            assert(opens_message(all[opening]));
            assert forall|i: int| 0 <= i < events.len() implies !opens_message(#[trigger] events[i]) by {
                if opens_message(events[i]) {
                    assert(events[i + 1] is OutputTextDelta);
                }
            }
            assert(all.take(opening) =~= events);
        } else {
            let i = choose|i: int| 0 <= i < events.len() && opens_message(#[trigger] events[i]);
            assert(opens_message(all[i]));
        }
        assert forall|i: int| 0 <= i < all.len() && opens_message(#[trigger] all[i]) implies {
            &&& all[i] == EventView::OutputItemAdded(message_item(id, Seq::empty()))
            &&& i + 1 < all.len()
            &&& all[i + 1] is OutputTextDelta
            &&& reports_no_text(all.take(i))
        } by {
            if i < events.len() {
                assert(opens_message(events[i]));
                assert(all[i + 1] == events[i + 1]);
                assert(all.take(i) =~= events.take(i));
            }
        }
        assert forall|i: int, j: int|
            0 <= i < j < all.len() && opens_message(#[trigger] all[i]) implies !opens_message(#[trigger] all[j]) by {
            if j < events.len() {
                assert(opens_message(events[i]) ==> !opens_message(events[j]));
            }
        }
        assert forall|i: int| 0 <= i < all.len() implies {
            ||| (#[trigger] all[i]) is Created
            ||| all[i] is ServerModel
            ||| opens_message(all[i])
            ||| all[i] is OutputTextDelta
        } by {
            if i >= events.len() {
                assert(all[i] == more[i - events.len()]);
            }
        }
        assert forall|i: int| 0 <= i < all.len() implies ((#[trigger] all[i]) matches EventView::OutputTextDelta(
            part,
        ) ==> part.len() > 0) by {
            if i >= events.len() {
                assert(all[i] == more[i - events.len()]);
            }
        }
    }
}

proof fn lemma_choice_told(
    completion: CompletionView,
    events: Seq<EventView>,
    choice: JsonView,
    tools: Map<Seq<char>, ToolView>,
)
    requires
        is_told_so_far(completion, events),
        completion.id.len() > 0,
    ensures
        completion.with_choice(choice, tools) matches (after, Ok(more)) ==> is_told_so_far(
            after,
            events + more,
        ) && after.id == completion.id,
{
    if let (after, Ok(more)) = completion.with_choice(choice, tools) {
        if more.len() == 0 {
            assert(events + more =~= events);
        }
        lemma_fragment_told(
            completion.id,
            completion.text,
            text_or_empty(choice.field("delta"@).field("content"@)),
            events,
        );
        if let Ok(whole) = whole_delta(choice.field("message"@)) {
            lemma_fragment_told(
                completion.id,
                completion.text,
                text_or_empty(whole.field("content"@)),
                events,
            );
        }
    }
}

proof fn lemma_choices_told(
    completion: CompletionView,
    events: Seq<EventView>,
    choices: Seq<JsonView>,
    tools: Map<Seq<char>, ToolView>,
)
    requires
        is_told_so_far(completion, events),
        completion.id.len() > 0,
    ensures
        completion.with_choices(choices, tools) matches (after, Ok(more)) ==> is_told_so_far(
            after,
            events + more,
        ) && after.id == completion.id,
    decreases choices.len(),
{
    if choices.len() == 0 {
        assert(events + Seq::<EventView>::empty() =~= events);
    } else {
        lemma_choices_told(completion, events, choices.drop_last(), tools);
        if let (between, Ok(first)) = completion.with_choices(choices.drop_last(), tools) {
            lemma_choice_told(between, events + first, choices.last(), tools);
            if let (after, Ok(second)) = between.with_choice(choices.last(), tools) {
                assert(events + first + second =~= events + (first + second));
            }
        }
    }
}

/// A chunk goes on telling what the completion holds.
pub proof fn lemma_chunk_told(
    completion: CompletionView,
    events: Seq<EventView>,
    chunk: JsonView,
    tools: Map<Seq<char>, ToolView>,
)
    requires
        is_told_so_far(completion, events),
        chunk.field("error"@) is Null,
    ensures
        completion.updated(chunk, tools) matches (after, Ok(more)) ==> is_told_so_far(after, events + more),
{
    if let (after, Ok(more)) = completion.updated(chunk, tools) {
        let counted = completion.with_usage(chunk).0;
        let (named, outcome) = counted.identified(chunk);
        let first = outcome->Ok_0;
        let choices = chunk.field("choices"@)->Array_0;
        if completion.id.len() == 0 {
            assert(events =~= Seq::empty());
            assert(reports_no_text(events));
            assert(is_told(named.id, events));
        }
        assert(reports_no_text(first));
        lemma_told_on(named.id, events, first);
        assert(tells_text_alone(events + first)) by {
            assert forall|i: int| 0 <= i < (events + first).len() implies {
                ||| (#[trigger] (events + first)[i]) is Created
                ||| (events + first)[i] is ServerModel
                ||| opens_message((events + first)[i])
                ||| (events + first)[i] is OutputTextDelta
            } by {
                if i < events.len() {
                    assert((events + first)[i] == events[i]);
                } else {
                    assert((events + first)[i] == first[i - events.len()]);
                }
            }
        }
        lemma_choices_told(named, events + first, choices, tools);
        let second = named.with_choices(choices, tools).1->Ok_0;
        assert(events + first + second =~= events + more);
    }
}

/// A completion tells its text as it comes. The fragments, none of them empty, add up
/// to what the deltas brought, or to the one complete message. The message is opened
/// exactly once, right before the first fragment. What is thought and what is called
/// leads to no event.
pub proof fn text_is_told_as_it_comes(chunks: Seq<JsonView>, tools: Map<Seq<char>, ToolView>)
    requires
        report_no_error(chunks),
    ensures
        run(chunks, tools) matches (completion, Ok(events)) ==> {
            &&& is_told(completion.id, events)
            &&& tells_text_alone(events)
            &&& streamed_text(events) == completion.text
            &&& completion.text == given_text(completion.message, chunks)
            &&& reports_no_text(events) <==> completion.text.len() == 0
        },
{
    lemma_run_holds(chunks, tools);
    lemma_run_told(chunks, tools);
}

proof fn lemma_run_told(chunks: Seq<JsonView>, tools: Map<Seq<char>, ToolView>)
    requires
        report_no_error(chunks),
    ensures
        run(chunks, tools) matches (completion, Ok(events)) ==> is_told_so_far(completion, events)
            && streamed_text(events) == completion.text,
    decreases chunks.len(),
{
    if chunks.len() > 0 {
        let rest = chunks.drop_last();
        lemma_no_error(chunks);
        lemma_run_told(rest, tools);
        if let (before, Ok(events)) = run(rest, tools) {
            lemma_chunk_told(before, events, chunks.last(), tools);
            chunks_only_add(before, chunks.last(), tools);
            if let (after, Ok(more)) = before.updated(chunks.last(), tools) {
                lemma_streamed_text(events, more);
            }
        }
    }
}

/// A call of which the fragments are added one after the other.
pub open spec fn assembled(fragments: Seq<FragmentView>, tools: Map<Seq<char>, ToolView>) -> (
    CallView,
    Result<(), ErrorView>,
)
    decreases fragments.len(),
{
    if fragments.len() == 0 {
        (blank_call(), Ok(()))
    } else {
        match assembled(fragments.drop_last(), tools) {
            (call, Err(error)) => (call, Err(error)),
            (call, Ok(_)) => call.with_fragment(fragments.last(), tools),
        }
    }
}

/// The fragments that belong to the call of that index.
pub open spec fn pieces(deltas: Seq<JsonView>, index: int, tools: Map<Seq<char>, ToolView>) -> Seq<FragmentView>
    decreases deltas.len(),
{
    if deltas.len() == 0 {
        Seq::empty()
    } else {
        let before = pieces(deltas.drop_last(), index, tools);
        let calls = with_deltas(Map::empty(), deltas.drop_last(), tools).0;
        match fragment_view(deltas.last()) {
            Ok(fragment) => if located(calls, fragment) == Ok::<int, ErrorView>(index) {
                before.push(fragment)
            } else {
                before
            },
            Err(_) => before,
        }
    }
}

/// Whether every ID that is given is one.
pub open spec fn ids_hold(fragments: Seq<FragmentView>) -> bool {
    forall|i: int| 0 <= i < fragments.len() ==> ((#[trigger] fragments[i]).id matches Some(id) ==> id.len() > 0)
}

/// A call is put together from the fragments that belong to it.
pub proof fn lemma_pieces(deltas: Seq<JsonView>, index: int, tools: Map<Seq<char>, ToolView>)
    ensures
        with_deltas(Map::empty(), deltas, tools) matches (calls, Ok(_)) ==> {
            &&& assembled(pieces(deltas, index, tools), tools) == (
                call_at(calls, index),
                Ok::<(), ErrorView>(()),
            )
            &&& calls.dom().contains(index) <==> pieces(deltas, index, tools).len() > 0
            &&& ids_hold(pieces(deltas, index, tools))
        },
    decreases deltas.len(),
{
    if deltas.len() > 0 {
        lemma_pieces(deltas.drop_last(), index, tools);
        if let (calls, Ok(_)) = with_deltas(Map::empty(), deltas, tools) {
            let all = pieces(deltas, index, tools);
            let before = pieces(deltas.drop_last(), index, tools);
            let fragment = fragment_view(deltas.last())->Ok_0;
            if let Some(id) = fragment.id {
                if id.len() == 0 {
                    assert(id =~= Seq::empty());
                }
            }
            if all.len() > before.len() {
                assert(all.drop_last() =~= before);
                assert forall|i: int| 0 <= i < all.len() implies ((#[trigger] all[i]).id matches Some(id) ==> id.len()
                    > 0) by {
                    if i < before.len() {
                        assert(all[i] == before[i]);
                    }
                }
            }
        }
    }
}

/// The fragments of the name.
pub open spec fn names_of(fragments: Seq<FragmentView>) -> Seq<Seq<char>> {
    fragments.map_values(|fragment: FragmentView| fragment.name)
}

/// The fragments of the arguments.
pub open spec fn arguments_of(fragments: Seq<FragmentView>) -> Seq<Seq<char>> {
    fragments.map_values(|fragment: FragmentView| fragment.arguments)
}

/// Whether all fragments that give an ID give this one, and one does.
pub open spec fn is_id_of(fragments: Seq<FragmentView>, id: Seq<char>) -> bool {
    &&& forall|i: int| 0 <= i < fragments.len() ==> ((#[trigger] fragments[i]).id matches Some(given) ==> given == id)
    &&& exists|i: int| 0 <= i < fragments.len() && (#[trigger] fragments[i]).id == Some(id)
}

/// What a call that is put together from fragments holds of them.
pub proof fn lemma_assembled(fragments: Seq<FragmentView>, tools: Map<Seq<char>, ToolView>)
    requires
        ids_hold(fragments),
    ensures
        assembled(fragments, tools) matches (call, Ok(_)) ==> {
            &&& call.arguments == concatenated(arguments_of(fragments))
            &&& call.id.len() > 0 ==> is_id_of(fragments, call.id)
            &&& call.id.len() == 0 ==> forall|i: int|
                0 <= i < fragments.len() ==> (#[trigger] fragments[i]).id is None
            &&& concatenated(names_of(fragments)).len() == 0 ==> call.names == Set::<Seq<char>>::empty()
            &&& concatenated(names_of(fragments)).len() > 0 && starts_name(
                tools,
                concatenated(names_of(fragments)),
            ) ==> call.names.contains(concatenated(names_of(fragments)))
        },
    decreases fragments.len(),
{
    if fragments.len() > 0 {
        let rest = fragments.drop_last();
        let last = fragments.last();
        assert(ids_hold(rest)) by {
            assert forall|i: int| 0 <= i < rest.len() implies ((#[trigger] rest[i]).id matches Some(id) ==> id.len()
                > 0) by {
                assert(rest[i] == fragments[i]);
            }
        }
        assert(fragments[fragments.len() - 1].id == last.id);
        lemma_assembled(rest, tools);
        assert(arguments_of(fragments).drop_last() =~= arguments_of(rest));
        assert(names_of(fragments).drop_last() =~= names_of(rest));
        if let (call, Ok(_)) = assembled(fragments, tools) {
            let before = assembled(rest, tools).0;
            let name = concatenated(names_of(fragments));
            let start = concatenated(names_of(rest));
            assert(name == start + last.name);
            assert forall|i: int| 0 <= i < fragments.len() && i < rest.len() implies rest[i] == fragments[i] by {}
            if call.id.len() > 0 {
                if last.id is Some {
                    assert(fragments[fragments.len() - 1].id == Some(call.id));
                } else {
                    let i = choose|i: int| 0 <= i < rest.len() && (#[trigger] rest[i]).id == Some(before.id);
                    assert(fragments[i].id == Some(call.id));
                }
                assert forall|i: int| 0 <= i < fragments.len() implies ((
                #[trigger] fragments[i]).id matches Some(given) ==> given == call.id) by {
                    if i < rest.len() {
                        assert(rest[i] == fragments[i]);
                    }
                }
            } else {
                assert forall|i: int| 0 <= i < fragments.len() implies (#[trigger] fragments[i]).id is None by {
                    if i < rest.len() {
                        assert(rest[i] == fragments[i]);
                    }
                }
            }
            if last.name.len() == 0 {
                assert(name =~= start);
            } else if starts_name(tools, name) {
                lemma_start_starts(tools, start, last.name);
                let read = read_so_far(before.names);
                if start.len() == 0 {
                    assert(start =~= Seq::empty());
                }
                assert(read.contains(start));
                assert(extended(read, last.name, tools).contains(name));
            }
        }
    }
}

/// What starts the start of a name starts the name.
proof fn lemma_start_starts(tools: Map<Seq<char>, ToolView>, start: Seq<char>, part: Seq<char>)
    requires
        starts_name(tools, start + part),
    ensures
        starts_name(tools, start),
{
    let name = choose|name: Seq<char>| #[trigger]
        tools.dom().contains(name) && (start + part).is_prefix_of(name);
    assert(name.subrange(0, start.len() as int) =~= start) by {
        assert forall|i: int| 0 <= i < start.len() implies name[i] == start[i] by {
            assert(name.subrange(0, (start + part).len() as int)[i] == (start + part)[i]);
        }
    }
    assert(start.is_prefix_of(name));
}

/// The call items that events hand over for good.
pub open spec fn handed_over(events: Seq<EventView>) -> Seq<ItemView>
    decreases events.len(),
{
    if events.len() == 0 {
        Seq::empty()
    } else {
        let before = handed_over(events.drop_last());
        match events.last() {
            EventView::OutputItemDone(item) => if is_call_item(item) {
                before.push(item)
            } else {
                before
            },
            _ => before,
        }
    }
}

/// One item for each call with an index below `count`, in the order of the indexes.
pub open spec fn call_items(calls: Map<int, CallView>, count: nat, tools: Map<Seq<char>, ToolView>) -> Seq<ItemView>
    decreases count,
{
    if count == 0 {
        Seq::empty()
    } else if calls.dom().contains(count - 1) {
        call_items(calls, (count - 1) as nat, tools).push(dispatched_call(calls, count - 1, tools)->Ok_0)
    } else {
        call_items(calls, (count - 1) as nat, tools)
    }
}

proof fn lemma_handed_over_follow(events: Seq<EventView>, more: Seq<EventView>)
    ensures
        handed_over(events + more) == handed_over(events) + handed_over(more),
    decreases more.len(),
{
    if more.len() == 0 {
        assert(events + more =~= events);
        assert(handed_over(events) + handed_over(more) =~= handed_over(events));
    } else {
        lemma_handed_over_follow(events, more.drop_last());
        assert((events + more).drop_last() =~= events + more.drop_last());
        assert(handed_over(events + more) =~= handed_over(events) + handed_over(more));
    }
}

proof fn lemma_dispatched_items(calls: Map<int, CallView>, count: nat, tools: Map<Seq<char>, ToolView>)
    requires
        dispatched(calls, count, tools) is Ok,
    ensures
        handed_over(dispatched(calls, count, tools)->Ok_0) == call_items(calls, count, tools),
    decreases count,
{
    if count > 0 {
        let events = dispatched(calls, count, tools)->Ok_0;
        lemma_dispatched_items(calls, (count - 1) as nat, tools);
        if calls.dom().contains(count - 1) {
            let before = dispatched(calls, (count - 1) as nat, tools)->Ok_0;
            let item = dispatched_call(calls, count - 1, tools)->Ok_0;
            assert(is_call_item(item));
            assert(events.drop_last().drop_last() =~= before);
            assert(handed_over(events.drop_last()) == handed_over(before));
        }
    }
}

/// A complete completion hands over one item for each call, in the order of the
/// indexes, and none besides.
pub proof fn calls_are_handed_over_once(completion: CompletionView, tools: Map<Seq<char>, ToolView>)
    requires
        !completion.is_cut_off(),
    ensures
        completion.finished(tools) matches Ok(events) ==> handed_over(events) == call_items(
            completion.calls,
            MAX_CALLS as nat,
            tools,
        ),
{
    if let Ok(events) = completion.finished(tools) {
        let thought = completion.reasoning_events();
        let said = completion.message_events();
        let calls = dispatched(completion.calls, MAX_CALLS as nat, tools)->Ok_0;
        let end = seq![completion.completed_event()];
        assert(handed_over(Seq::empty()) == Seq::<ItemView>::empty());
        assert(handed_over(thought) =~= Seq::empty()) by {
            if completion.reasoning.len() > 0 {
                assert(thought.drop_last().drop_last() =~= Seq::empty());
                assert(handed_over(thought.drop_last()) == Seq::<ItemView>::empty());
            }
        }
        assert(handed_over(said) =~= Seq::empty()) by {
            if completion.text.len() > 0 {
                assert(said.drop_last() =~= Seq::empty());
            }
        }
        assert(handed_over(end) =~= Seq::empty()) by {
            assert(end.drop_last() =~= Seq::empty());
        }
        lemma_dispatched_items(completion.calls, MAX_CALLS as nat, tools);
        lemma_handed_over_follow(thought, calls);
        lemma_handed_over_follow(thought + calls, said);
        lemma_handed_over_follow(thought + calls + said, end);
        assert(handed_over(events) =~= handed_over(calls));
    }
}

proof fn lemma_dispatch_opens_nothing(calls: Map<int, CallView>, count: nat, tools: Map<Seq<char>, ToolView>)
    ensures
        dispatched(calls, count, tools) matches Ok(events) ==> forall|i: int|
            0 <= i < events.len() ==> !opens_message(#[trigger] events[i]),
    decreases count,
{
    if count > 0 {
        lemma_dispatch_opens_nothing(calls, (count - 1) as nat, tools);
        if let Ok(item) = dispatched_call(calls, count - 1, tools) {
            assert(is_call_item(item));
        }
    }
}

/// The events that end a completion open no message.
pub proof fn lemma_end_opens_nothing(completion: CompletionView, tools: Map<Seq<char>, ToolView>)
    ensures
        completion.finished(tools) matches Ok(events) ==> forall|i: int|
            0 <= i < events.len() ==> !opens_message(#[trigger] events[i]),
{
    if let Ok(events) = completion.finished(tools) {
        let thought = completion.reasoning_events();
        let said = completion.message_events();
        let calls = if completion.is_cut_off() {
            Seq::empty()
        } else {
            dispatched(completion.calls, MAX_CALLS as nat, tools)->Ok_0
        };
        lemma_dispatch_opens_nothing(completion.calls, MAX_CALLS as nat, tools);
        assert forall|i: int| 0 <= i < events.len() implies !opens_message(#[trigger] events[i]) by {
            if i < thought.len() {
                assert(events[i] == thought[i]);
            } else if i < thought.len() + calls.len() {
                assert(events[i] == calls[i - thought.len()]);
            } else if i < events.len() - 1 {
                assert(events[i] == said[i - thought.len() - calls.len()]);
            }
        }
    }
}

/// Whether an item is the call of that tool that these fragments make: its ID, its
/// name and namespace, and, for a function, its arguments to the letter, for a custom
/// tool, the input in them.
pub open spec fn is_call_of(item: ItemView, tool: ToolView, fragments: Seq<FragmentView>) -> bool {
    let streamed = concatenated(arguments_of(fragments));
    match item {
        ItemView::FunctionCall { call_id, name, namespace, arguments } => {
            &&& !tool.custom
            &&& is_id_of(fragments, call_id)
            &&& name == tool.name
            &&& namespace == tool.namespace
            &&& arguments == streamed
        },
        ItemView::CustomToolCall { call_id, name, namespace, input } => {
            &&& tool.custom
            &&& is_id_of(fragments, call_id)
            &&& name == tool.name
            &&& namespace == tool.namespace
            &&& parsed(streamed) matches Some(arguments)
            &&& arguments.field("input"@) == JsonView::Text(input)
        },
        _ => false,
    }
}

/// A call that was streamed under the name of an advertised tool, in whatever pieces,
/// comes out as a call of that tool.
pub proof fn streamed_calls_come_out(
    chunks: Seq<JsonView>,
    tools: Map<Seq<char>, ToolView>,
    index: int,
    key: Seq<char>,
)
    requires
        report_no_error(chunks),
        run(chunks, tools).1 is Ok,
        run(chunks, tools).0.calls.dom().contains(index),
        !run(chunks, tools).0.is_cut_off(),
        run(chunks, tools).0.finished(tools) is Ok,
        key.len() > 0,
        tools.dom().contains(key),
        key == concatenated(
            names_of(pieces(given_calls(run(chunks, tools).0.message, chunks), index, tools)),
        ),
    ensures
        ({
            let completion = run(chunks, tools).0;
            let events = completion.finished(tools)->Ok_0;
            let item = dispatched_call(completion.calls, index, tools)->Ok_0;
            &&& 0 <= index < MAX_CALLS
            &&& events.contains(EventView::OutputItemDone(item))
            &&& is_call_of(
                item,
                tools[key],
                pieces(given_calls(completion.message, chunks), index, tools),
            )
        }),
{
    let completion = run(chunks, tools).0;
    let deltas = given_calls(completion.message, chunks);
    let fragments = pieces(deltas, index, tools);
    lemma_run_holds(chunks, tools);
    lemma_pieces(deltas, index, tools);
    lemma_assembled(fragments, tools);
    complete_completions_run_advertised_tools(completion, tools);
    let call = completion.calls[index];
    assert(assembled(fragments, tools).0 == call);
    assert(key.subrange(0, key.len() as int) =~= key);
    assert(key.is_prefix_of(key));
    assert(starts_name(tools, key));
    assert(is_advertised(call.names, tools, key));
    lemma_handed_over(completion.calls, MAX_CALLS as nat, index, tools);
    let tool = resolved(call.names, tools)->Ok_0;
    let name = choose|name: Seq<char>| is_advertised(call.names, tools, name);
    assert(is_advertised(call.names, tools, name));
    assert(name == key);
    assert(tool == tools[key]);
}

} // verus!
