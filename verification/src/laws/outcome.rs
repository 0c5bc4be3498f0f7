//! How a completion ends, told from the chunks that went in.

use vstd::prelude::*;

use crate::calls::{CallView, MAX_CALLS};
use crate::completion::{blank_completion, counters_hold, token_usage_view, CompletionView};
use crate::dispatch::{dispatched, dispatched_call, is_advertised, repeats_id, resolved};
use crate::error::ErrorView;
use crate::event::{EventView, IncompleteKind, ItemView, TokenUsage};
use crate::json::JsonView;
use crate::laws::assembly::{all_choices, brought, lemma_no_call, texts_are_kept};
use crate::laws::chunks::{
    call_items, calls_are_handed_over_once, handed_over, lemma_no_error, list_in, report_no_error, run, text_in,
};
use crate::laws::completion::{calls_hold, chunks_keep_calls_apart};
use crate::tools::ToolView;
use crate::wire::{parsed, serialized};

verus! {

/// The last usage report of chunks.
pub open spec fn last_usage(chunks: Seq<JsonView>) -> Option<JsonView>
    decreases chunks.len(),
{
    if chunks.len() == 0 {
        None
    } else if chunks.last().field("usage"@) is Object {
        Some(chunks.last().field("usage"@))
    } else {
        last_usage(chunks.drop_last())
    }
}

/// The last reason to end that choices give.
pub open spec fn last_reason(choices: Seq<JsonView>) -> Option<Seq<char>>
    decreases choices.len(),
{
    if choices.len() == 0 {
        None
    } else {
        match choices.last().field("finish_reason"@) {
            JsonView::Text(reason) => Some(reason),
            _ => last_reason(choices.drop_last()),
        }
    }
}

/// Whether a value is a count, or not given.
pub open spec fn is_count(value: JsonView) -> bool {
    value is Null || (value matches JsonView::Integer(n) && 0 <= n <= i64::MAX)
}

/// Whether every counter of a usage report is a count.
pub open spec fn counts_hold(usage: JsonView) -> bool {
    &&& is_count(usage.field("prompt_tokens"@))
    &&& is_count(usage.field("completion_tokens"@))
    &&& is_count(usage.field("total_tokens"@))
    &&& is_count(usage.field("prompt_tokens_details"@).field("cached_tokens"@))
    &&& is_count(usage.field("prompt_cache_hit_tokens"@))
    &&& is_count(usage.field("cache_write_input_tokens"@))
    &&& is_count(usage.field("completion_tokens_details"@).field("reasoning_tokens"@))
    &&& is_count(usage.field("completion_thinking_tokens"@))
}

/// The first of two counts that is given; zero where none is.
pub open spec fn count_of(value: JsonView, other: JsonView) -> int {
    match value {
        JsonView::Integer(n) => n,
        _ => match other {
            JsonView::Integer(n) => n,
            _ => 0,
        },
    }
}

/// Whether tokens are those that a usage report counts.
pub open spec fn are_counted(tokens: TokenUsage, usage: JsonView) -> bool {
    &&& usage.field("prompt_tokens"@) == JsonView::Integer(tokens.input_tokens as int)
    &&& usage.field("completion_tokens"@) == JsonView::Integer(tokens.output_tokens as int)
    &&& usage.field("total_tokens"@) == JsonView::Integer(tokens.total_tokens as int)
    &&& tokens.cached_input_tokens as int == count_of(
        usage.field("prompt_tokens_details"@).field("cached_tokens"@),
        usage.field("prompt_cache_hit_tokens"@),
    )
    &&& tokens.cache_write_input_tokens as int == count_of(
        usage.field("cache_write_input_tokens"@),
        JsonView::Null,
    )
    &&& tokens.reasoning_output_tokens as int == count_of(
        usage.field("completion_tokens_details"@).field("reasoning_tokens"@),
        usage.field("completion_thinking_tokens"@),
    )
}

/// Whether the tokens that are reported are those of the last usage report: none where
/// there is none, or where it lacks a total.
pub open spec fn tokens_hold(tokens: Option<TokenUsage>, usage: Option<JsonView>) -> bool {
    match usage {
        None => tokens is None,
        Some(usage) => match tokens {
            Some(tokens) => are_counted(tokens, usage),
            None => usage.field("prompt_tokens"@) is Null || usage.field("completion_tokens"@) is Null
                || usage.field("total_tokens"@) is Null,
        },
    }
}

/// The events that name a completion.
pub open spec fn names_in(events: Seq<EventView>) -> Seq<EventView>
    decreases events.len(),
{
    if events.len() == 0 {
        Seq::empty()
    } else if events.last() is Created || events.last() is ServerModel {
        names_in(events.drop_last()).push(events.last())
    } else {
        names_in(events.drop_last())
    }
}

/// How a chunk names a completion.
pub open spec fn naming(chunk: JsonView) -> Seq<EventView> {
    let created = EventView::Created { response_id: Some(text_in(chunk.field("id"@))) };
    match chunk.field("model"@) {
        JsonView::Text(model) => seq![created, EventView::ServerModel(model)],
        _ => seq![created],
    }
}

proof fn lemma_names_follow(events: Seq<EventView>, more: Seq<EventView>)
    ensures
        names_in(events + more) == names_in(events) + names_in(more),
    decreases more.len(),
{
    if more.len() == 0 {
        assert(events + more =~= events);
        assert(names_in(events) + names_in(more) =~= names_in(events));
    } else {
        lemma_names_follow(events, more.drop_last());
        assert((events + more).drop_last() =~= events + more.drop_last());
        assert(names_in(events + more) =~= names_in(events) + names_in(more));
    }
}

proof fn lemma_tokens(usage: JsonView)
    ensures
        counters_hold(usage) <==> counts_hold(usage),
        counters_hold(usage) ==> tokens_hold(token_usage_view(usage), Some(usage)),
{
}

/// What a choice leaves alone.
spec fn is_same(before: CompletionView, after: CompletionView) -> bool {
    &&& after.id == before.id
    &&& after.failure == before.failure
    &&& after.usage == before.usage
    &&& after.raw_usage == before.raw_usage
}

proof fn lemma_choice(completion: CompletionView, choice: JsonView, tools: Map<Seq<char>, ToolView>)
    ensures
        completion.with_choice(choice, tools) matches (after, Ok(events)) ==> {
            &&& is_same(completion, after)
            &&& after.finish == match choice.field("finish_reason"@) {
                JsonView::Text(reason) => Some(reason),
                _ => completion.finish,
            }
            &&& names_in(events) == Seq::<EventView>::empty()
        },
{
    if let (after, Ok(events)) = completion.with_choice(choice, tools) {
        if events.len() == 1 {
            assert(events.drop_last() =~= Seq::empty());
        } else if events.len() == 2 {
            assert(events.drop_last().drop_last() =~= Seq::empty());
            assert(names_in(events.drop_last()) == names_in(events.drop_last().drop_last()));
        }
        assert(names_in(Seq::empty()) == Seq::<EventView>::empty());
    }
}

proof fn lemma_choices(
    completion: CompletionView,
    before: Seq<JsonView>,
    choices: Seq<JsonView>,
    tools: Map<Seq<char>, ToolView>,
)
    requires
        completion.finish == last_reason(before),
    ensures
        completion.with_choices(choices, tools) matches (after, Ok(events)) ==> {
            &&& is_same(completion, after)
            &&& after.finish == last_reason(before + choices)
            &&& names_in(events) == Seq::<EventView>::empty()
        },
    decreases choices.len(),
{
    if choices.len() == 0 {
        assert(before + choices =~= before);
        assert(names_in(Seq::empty()) == Seq::<EventView>::empty());
    } else {
        let rest = choices.drop_last();
        lemma_choices(completion, before, rest, tools);
        if let (between, Ok(first)) = completion.with_choices(rest, tools) {
            lemma_choice(between, choices.last(), tools);
            assert((before + choices).drop_last() =~= before + rest);
            if let (_, Ok(second)) = between.with_choice(choices.last(), tools) {
                lemma_names_follow(first, second);
                assert(names_in(first + second) =~= Seq::empty());
            }
        }
    }
}

/// Whether a completion is what chunks make it, besides its content.
spec fn is_made(completion: CompletionView, events: Seq<EventView>, chunks: Seq<JsonView>) -> bool {
    &&& calls_hold(completion.calls)
    &&& completion.failure is None
    &&& completion.finish == last_reason(all_choices(chunks))
    &&& completion.raw_usage == last_usage(chunks)
    &&& tokens_hold(completion.usage, last_usage(chunks))
    &&& if chunks.len() == 0 {
        completion.id.len() == 0 && events.len() == 0
    } else {
        &&& chunks[0].field("id"@) == JsonView::Text(completion.id)
        &&& completion.id.len() > 0
        &&& names_in(events) == naming(chunks[0])
        &&& events.len() > 0
        &&& events[0] == naming(chunks[0])[0]
    }
    &&& forall|i: int|
        0 <= i < chunks.len() ==> (#[trigger] chunks[i]).field("id"@) is Null || chunks[i].field("id"@)
            == JsonView::Text(completion.id)
    &&& forall|i: int|
        0 <= i < chunks.len() && (#[trigger] chunks[i]).field("usage"@) is Object ==> counts_hold(
            chunks[i].field("usage"@),
        )
}

proof fn lemma_run(chunks: Seq<JsonView>, tools: Map<Seq<char>, ToolView>)
    requires
        report_no_error(chunks),
    ensures
        run(chunks, tools) matches (completion, Ok(events)) ==> is_made(completion, events, chunks),
    decreases chunks.len(),
{
    if chunks.len() > 0 {
        let rest = chunks.drop_last();
        let chunk = chunks.last();
        lemma_no_error(chunks);
        lemma_run(rest, tools);
        if let (before, Ok(events)) = run(rest, tools) {
            if let (after, Ok(more)) = before.updated(chunk, tools) {
                let counted = before.with_usage(chunk).0;
                let (named, outcome) = counted.identified(chunk);
                let first = outcome->Ok_0;
                let choices = list_in(chunk.field("choices"@));
                let all = events + more;
                lemma_tokens(chunk.field("usage"@));
                chunks_keep_calls_apart(before, chunk, tools);
                assert(named.finish == last_reason(all_choices(rest)));
                lemma_choices(named, all_choices(rest), choices, tools);
                let second = named.with_choices(choices, tools).1->Ok_0;
                assert(more == first + second);
                lemma_names_follow(first, second);
                lemma_names_follow(events, more);
                assert(names_in(Seq::empty()) == Seq::<EventView>::empty());
                if rest.len() == 0 {
                    assert(rest =~= Seq::empty());
                    assert(chunks[0] == chunk);
                    assert(first == naming(chunk));
                    assert(names_in(first) =~= first) by {
                        assert(first.drop_last().len() < first.len());
                        if first.len() == 2 {
                            assert(first.drop_last().drop_last() =~= Seq::empty());
                            assert(names_in(first.drop_last()) =~= seq![first[0]]);
                        } else {
                            assert(first.drop_last() =~= Seq::empty());
                        }
                    }
                    assert(events =~= Seq::empty());
                    assert(names_in(all) =~= naming(chunk));
                    assert(all[0] == first[0]);
                } else {
                    assert(chunks[0] == rest[0]);
                    assert(first =~= Seq::empty());
                    assert(names_in(all) =~= naming(chunks[0]));
                    assert(all[0] == events[0]);
                }
                assert forall|i: int| 0 <= i < chunks.len() implies (#[trigger] chunks[i]).field("id"@) is Null
                    || chunks[i].field("id"@) == JsonView::Text(after.id) by {
                    if i < rest.len() {
                        assert(rest[i] == chunks[i]);
                    }
                }
                assert forall|i: int|
                    0 <= i < chunks.len() && (#[trigger] chunks[i]).field("usage"@) is Object implies counts_hold(
                    chunks[i].field("usage"@),
                ) by {
                    if i < rest.len() {
                        assert(rest[i] == chunks[i]);
                    }
                }
            }
        }
    }
}

/// A completion is named once, first of all, as its first chunk names it; and no chunk
/// names another.
pub proof fn completions_are_named_once(chunks: Seq<JsonView>, tools: Map<Seq<char>, ToolView>)
    requires
        report_no_error(chunks),
        chunks.len() > 0,
    ensures
        run(chunks, tools) matches (completion, Ok(events)) ==> {
            &&& chunks[0].field("id"@) == JsonView::Text(completion.id)
            &&& completion.id.len() > 0
            &&& names_in(events) == naming(chunks[0])
            &&& events.len() > 0
            &&& events[0] == (EventView::Created { response_id: Some(completion.id) })
            &&& forall|i: int|
                0 <= i < chunks.len() ==> (#[trigger] chunks[i]).field("id"@) is Null || chunks[i].field("id"@)
                    == chunks[0].field("id"@)
        },
{
    lemma_run(chunks, tools);
}

/// Whether an event says that a completion is complete, under its ID, with its usage
/// as it was counted and as it came. The turn ends where there is no call.
pub open spec fn is_completed(event: EventView, id: Seq<char>, usage: Option<JsonView>, has_calls: bool) -> bool {
    &&& event matches EventView::Completed { response_id, token_usage, usage_metadata, end_turn }
    &&& response_id == id
    &&& tokens_hold(token_usage, usage)
    &&& match (usage, usage_metadata) {
        (None, None) => true,
        (Some(usage), Some(metadata)) => metadata.amount is None && metadata.metadata == Some(
            JsonView::object().with("provider"@, JsonView::Text("codebuddy"@)).with("usage"@, usage),
        ),
        _ => false,
    }
    &&& end_turn == Some(!has_calls)
}

/// Whether an event says that a completion reached its output limit, under its ID,
/// with its usage as it was counted, and with the report as it came in the reason.
pub open spec fn is_truncated(event: EventView, id: Seq<char>, usage: Option<JsonView>) -> bool {
    let limit =
        "CodeBuddy generation reached its output limit (finish_reason=length); no tool calls were executed"@;
    &&& event matches EventView::Incomplete { response_id, token_usage, reason, kind }
    &&& response_id == id
    &&& tokens_hold(token_usage, usage)
    &&& kind == IncompleteKind::OutputLimit
    &&& reason == match usage {
        Some(usage) => limit + "; CodeBuddy usage: "@ + serialized(usage),
        None => limit,
    }
}

/// A completion ends as the last reason that its chunks give says. With `stop` it is
/// complete, and has no call; with `tool_calls` it is complete, and has one at least;
/// with `length` it was cut off. Without one of these it does not end, nor where a call
/// cannot be run. Its end says its ID and its last usage report.
pub proof fn completions_end_for_a_reason(chunks: Seq<JsonView>, tools: Map<Seq<char>, ToolView>)
    requires
        report_no_error(chunks),
        run(chunks, tools).1 is Ok,
    ensures
        ({
            let completion = run(chunks, tools).0;
            let reason = last_reason(all_choices(chunks));
            let has_calls = completion.calls != Map::<int, CallView>::empty();
            let usage = last_usage(chunks);
            match completion.finished(tools) {
                Ok(events) => {
                    &&& events.len() > 0
                    &&& reason != Some("length"@) ==> forall|index: int| #[trigger]
                        completion.calls.dom().contains(index) ==> is_runnable(completion.calls[index], tools)
                    &&& reason == Some("length"@) ==> is_truncated(events.last(), completion.id, usage)
                    &&& reason == Some("stop"@) ==> !has_calls && is_completed(
                        events.last(),
                        completion.id,
                        usage,
                        false,
                    )
                    &&& reason == Some("tool_calls"@) ==> has_calls && is_completed(
                        events.last(),
                        completion.id,
                        usage,
                        true,
                    )
                    &&& reason == Some("length"@) || reason == Some("stop"@) || reason == Some("tool_calls"@)
                },
                Err(_) => {
                    &&& reason != Some("length"@)
                    &&& reason == Some("stop"@) ==> has_calls
                    &&& reason == Some("tool_calls"@) && has_calls ==> exists|index: int|
                        #![trigger completion.calls[index]]
                        completion.calls.dom().contains(index) && !is_runnable(completion.calls[index], tools)
                },
            }
        }),
{
    let completion = run(chunks, tools).0;
    lemma_run(chunks, tools);
    reveal_strlit("stop");
    reveal_strlit("length");
    reveal_strlit("tool_calls");
    reveal_strlit("error");
    assert("stop"@.len() == 4 && "length"@.len() == 6 && "tool_calls"@.len() == 10 && "error"@.len() == 5);
    lemma_runnable(completion.calls, MAX_CALLS as nat, tools);
    if reason_is_to_run(completion) && completion.finished(tools) is Err {
        let index = choose|index: int|
            0 <= index < MAX_CALLS && #[trigger] completion.calls.dom().contains(index) && !is_runnable(
                completion.calls[index],
                tools,
            );
        assert(!is_runnable(completion.calls[index], tools));
    }
}

spec fn reason_is_to_run(completion: CompletionView) -> bool {
    completion.finish == Some("tool_calls"@) && completion.calls != Map::<int, CallView>::empty()
}

/// Whether a call can be run: it has an ID, its name can be read as that of one
/// advertised tool, and its arguments are JSON, with a text as input where the tool is a
/// custom one.
pub open spec fn is_runnable(call: CallView, tools: Map<Seq<char>, ToolView>) -> bool {
    &&& call.id.len() > 0
    &&& exists|key: Seq<char>| #[trigger] is_only_reading(call, tools, key) && match parsed(call.arguments) {
        Some(arguments) => tools[key].custom ==> arguments.field("input"@) is Text,
        None => false,
    }
}

/// Whether the name of a call can be read as an advertised one, and as no other.
pub open spec fn is_only_reading(call: CallView, tools: Map<Seq<char>, ToolView>, key: Seq<char>) -> bool {
    &&& call.names.contains(key)
    &&& tools.dom().contains(key)
    &&& forall|other: Seq<char>| #[trigger]
        call.names.contains(other) && tools.dom().contains(other) ==> other == key
}

proof fn lemma_runs(calls: Map<int, CallView>, index: int, tools: Map<Seq<char>, ToolView>)
    requires
        calls_hold(calls),
        calls.dom().contains(index),
    ensures
        dispatched_call(calls, index, tools) is Ok <==> is_runnable(calls[index], tools),
{
    let call = calls[index];
    if call.id.len() > 0 {
        assert(!repeats_id(calls, index));
    }
    if resolved(call.names, tools) is Ok {
        let key = choose|name: Seq<char>| is_advertised(call.names, tools, name);
        assert(is_advertised(call.names, tools, key));
        assert forall|other: Seq<char>| #[trigger]
            call.names.contains(other) && tools.dom().contains(other) implies other == key by {
            assert(is_advertised(call.names, tools, other));
        }
        assert(is_only_reading(call, tools, key));
        if is_runnable(call, tools) {
            let other = choose|other: Seq<char>| #[trigger] is_only_reading(call, tools, other);
            assert(is_advertised(call.names, tools, other));
        }
    } else if is_runnable(call, tools) {
        let key = choose|key: Seq<char>| #[trigger] is_only_reading(call, tools, key);
        assert(is_advertised(call.names, tools, key));
        assert forall|a: Seq<char>, b: Seq<char>| #[trigger]
            is_advertised(call.names, tools, a) && #[trigger] is_advertised(call.names, tools, b) implies a == b by {
            assert(call.names.contains(a) && call.names.contains(b));
        }
    }
}

proof fn lemma_runnable(calls: Map<int, CallView>, count: nat, tools: Map<Seq<char>, ToolView>)
    requires
        calls_hold(calls),
    ensures
        dispatched(calls, count, tools) is Ok <==> forall|index: int|
            0 <= index < count && #[trigger] calls.dom().contains(index) ==> is_runnable(calls[index], tools),
    decreases count,
{
    if count > 0 {
        lemma_runnable(calls, (count - 1) as nat, tools);
        if calls.dom().contains(count - 1) {
            lemma_runs(calls, count - 1, tools);
        }
        if dispatched(calls, count, tools) is Ok {
            assert forall|index: int| 0 <= index < count && #[trigger] calls.dom().contains(index) implies is_runnable(
                calls[index],
                tools,
            ) by {}
        }
    }
}

/// How a thought is reported: its item is added, and done.
pub open spec fn thought_reported(id: Seq<char>, reasoning: Seq<char>) -> Seq<EventView> {
    let item = ItemView::Reasoning { id: id + "-reasoning"@, content: reasoning };
    if reasoning.len() == 0 {
        Seq::empty()
    } else {
        seq![EventView::OutputItemAdded(item), EventView::OutputItemDone(item)]
    }
}

/// How calls are reported: each item is added, and done, before the next.
pub open spec fn calls_reported(items: Seq<ItemView>) -> Seq<EventView>
    decreases items.len(),
{
    if items.len() == 0 {
        Seq::empty()
    } else {
        calls_reported(items.drop_last()) + seq![
            EventView::OutputItemAdded(items.last()),
            EventView::OutputItemDone(items.last()),
        ]
    }
}

/// How a text is reported that was told as it came: its message is done.
pub open spec fn text_reported(id: Seq<char>, text: Seq<char>) -> Seq<EventView> {
    let item = ItemView::Message { id: Some(id + "-message"@), role: "assistant"@, content: seq![text] };
    if text.len() == 0 {
        Seq::empty()
    } else {
        seq![EventView::OutputItemDone(item)]
    }
}

proof fn lemma_calls_reported(calls: Map<int, CallView>, count: nat, tools: Map<Seq<char>, ToolView>)
    ensures
        dispatched(calls, count, tools) matches Ok(events) ==> events == calls_reported(
            call_items(calls, count, tools),
        ),
    decreases count,
{
    if count > 0 {
        lemma_calls_reported(calls, (count - 1) as nat, tools);
        if let Ok(events) = dispatched(calls, count, tools) {
            if calls.dom().contains(count - 1) {
                let before = call_items(calls, (count - 1) as nat, tools);
                let item = dispatched_call(calls, count - 1, tools)->Ok_0;
                assert(call_items(calls, count, tools).drop_last() =~= before);
                assert(events =~= calls_reported(before) + seq![
                    EventView::OutputItemAdded(item),
                    EventView::OutputItemDone(item),
                ]);
            }
        }
    }
}

proof fn lemma_order(completion: CompletionView, tools: Map<Seq<char>, ToolView>)
    ensures
        completion.finished(tools) matches Ok(events) ==> {
            &&& events.len() > 0
            &&& events == thought_reported(completion.id, completion.reasoning) + calls_reported(
                handed_over(events),
            ) + text_reported(completion.id, completion.text) + seq![events.last()]
            &&& completion.is_cut_off() ==> handed_over(events).len() == 0
        },
{
    if let Ok(events) = completion.finished(tools) {
        let thought = thought_reported(completion.id, completion.reasoning);
        let said = text_reported(completion.id, completion.text);
        assert(thought == completion.reasoning_events());
        assert(said =~= completion.message_events());
        if completion.is_cut_off() {
            assert(events =~= thought + said + seq![events.last()]);
            assert(events =~= events.take(events.len() as int));
            lemma_no_call(events, events.len() as int);
            assert(events =~= thought + Seq::<EventView>::empty() + said + seq![events.last()]);
        } else {
            lemma_calls_reported(completion.calls, MAX_CALLS as nat, tools);
            calls_are_handed_over_once(completion, tools);
        }
    }
}

/// The end of a completion comes in order: what was thought, then the calls, then what
/// was said, each under an ID of the completion, and then the event that ends it.
pub proof fn ends_come_in_order(chunks: Seq<JsonView>, tools: Map<Seq<char>, ToolView>)
    requires
        report_no_error(chunks),
        run(chunks, tools).1 is Ok,
    ensures
        run(chunks, tools).0.finished(tools) matches Ok(events) ==> {
            let id = text_in(chunks[0].field("id"@));
            &&& chunks.len() > 0
            &&& events.len() > 0
            &&& events == thought_reported(id, brought(chunks, "reasoning_content"@)) + calls_reported(
                handed_over(events),
            ) + text_reported(id, brought(chunks, "content"@)) + seq![events.last()]
        },
{
    lemma_run(chunks, tools);
    texts_are_kept(chunks, tools);
    lemma_order(run(chunks, tools).0, tools);
}

/// Whether an event says that the provider gave up, with the chunk that says so in the
/// reason, and the usage report as it came.
pub open spec fn is_given_up(event: EventView, id: Seq<char>, failure: JsonView, usage: Option<JsonView>) -> bool {
    let reported = "CodeBuddy stream error: "@ + serialized(failure);
    &&& event matches EventView::Incomplete { response_id, token_usage, reason, kind }
    &&& response_id == id
    &&& tokens_hold(token_usage, usage)
    &&& kind == IncompleteKind::ProviderError
    &&& reason == match usage {
        Some(usage) => reported + "; CodeBuddy usage: "@ + serialized(usage),
        None => reported,
    }
}

/// Where the provider gives up after chunks, the completion ends: with all that was
/// thought and said, with no call, and with what the provider said. Only where the
/// context was too long, or where the usage does not count, it is refused.
pub proof fn failures_end_completions(
    chunks: Seq<JsonView>,
    failure: JsonView,
    tools: Map<Seq<char>, ToolView>,
)
    requires
        report_no_error(chunks),
        run(chunks, tools).1 is Ok,
        !(failure.field("error"@) is Null),
    ensures
        ({
            let completion = run(chunks, tools).0;
            let id = match failure.field("id"@) {
                JsonView::Text(id) => id,
                _ => completion.id,
            };
            let usage = last_usage(chunks.push(failure));
            let counts = failure.field("usage"@) is Object ==> counts_hold(failure.field("usage"@));
            let too_long = failure.field("error"@).field("code"@) == JsonView::Text("context_length_exceeded"@);
            let (after, outcome) = completion.updated(failure, tools);
            &&& outcome is Ok <==> counts && !too_long
            &&& counts && too_long ==> outcome == Err::<Seq<EventView>, ErrorView>(ErrorView::ContextWindowExceeded)
            &&& outcome matches Ok(events) ==> {
                &&& events.len() > 0
                &&& events == thought_reported(id, brought(chunks, "reasoning_content"@)) + text_reported(
                    id,
                    brought(chunks, "content"@),
                ) + seq![events.last()]
                &&& is_given_up(events.last(), id, failure, usage)
                &&& after == blank_completion()
            }
        }),
{
    let completion = run(chunks, tools).0;
    lemma_run(chunks, tools);
    texts_are_kept(chunks, tools);
    lemma_tokens(failure.field("usage"@));
    assert(chunks.push(failure).drop_last() =~= chunks);
    let counted = completion.with_usage(failure).0;
    let failed = counted.failed(failure, serialized(failure));
    lemma_order(failed, tools);
    if let Ok(events) = failed.finished(tools) {
        assert(handed_over(events) =~= Seq::empty());
        let thought = thought_reported(failed.id, failed.reasoning);
        assert(thought + calls_reported(Seq::empty()) =~= thought);
    }
}

} // verus!
