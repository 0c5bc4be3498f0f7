//! A completion, put together from the chunks of a stream.

use vstd::prelude::*;
use vstd::string::StringExecFns;

use crate::calls::{is_text_or_null, text_or_empty, with_delta, CallView, Calls, MAX_CALLS};
use crate::dispatch::{dispatch, dispatched, optional_json};
use crate::error::{invalid, outcome_view, refusal, ApiError, ErrorView};
use crate::event::{
    EventView, IncompleteKind, ItemView, ResponseEvent, ResponseItem, ResponseUsageMetadata, TokenUsage,
    UsageMetadataView,
};
use crate::json::{alike, items_view, Json, JsonView};
use crate::text::{joined, optional_text, same_text};
use crate::tools::{ToolTable, ToolView};
use crate::views::{group_views, views};
use crate::wire::{serialized, text_of};

verus! {

broadcast use group_views;

/// A completion of which the end has not been seen.
#[derive(Debug)]
pub struct Completion {
    pub id: String,
    pub text: String,
    pub reasoning: String,
    pub calls: Calls,
    pub finish: Option<String>,
    pub failure: Option<String>,
    pub message: Option<Json>,
    pub has_delta_content: bool,
    pub usage: Option<TokenUsage>,
    pub raw_usage: Option<Json>,
    pub bytes: usize,
}

pub struct CompletionView {
    pub id: Seq<char>,
    pub text: Seq<char>,
    pub reasoning: Seq<char>,
    pub calls: Map<int, CallView>,
    pub finish: Option<Seq<char>>,
    pub failure: Option<Seq<char>>,
    pub message: Option<JsonView>,
    pub has_delta_content: bool,
    pub usage: Option<TokenUsage>,
    pub raw_usage: Option<JsonView>,
    pub bytes: usize,
}

impl View for Completion {
    type V = CompletionView;

    open spec fn view(&self) -> CompletionView {
        CompletionView {
            id: self.id@,
            text: self.text@,
            reasoning: self.reasoning@,
            calls: self.calls@,
            finish: optional_text(self.finish),
            failure: optional_text(self.failure),
            message: optional_json(self.message),
            has_delta_content: self.has_delta_content,
            usage: self.usage,
            raw_usage: optional_json(self.raw_usage),
            bytes: self.bytes,
        }
    }
}

/// A completion of which nothing has been seen.
pub open spec fn blank_completion() -> CompletionView {
    CompletionView {
        id: Seq::empty(),
        text: Seq::empty(),
        reasoning: Seq::empty(),
        calls: Map::empty(),
        finish: None,
        failure: None,
        message: None,
        has_delta_content: false,
        usage: None,
        raw_usage: None,
        bytes: 0,
    }
}

/// A counter that the provider left out, or a count.
pub open spec fn is_counter(value: JsonView) -> bool {
    value is Null || (value.signed() matches Some(n) && n >= 0)
}

pub open spec fn count_or(value: JsonView, other: i64) -> i64 {
    match value.signed() {
        Some(n) => n,
        None => other,
    }
}

/// The counters of a usage report.
pub open spec fn counters_hold(usage: JsonView) -> bool {
    &&& is_counter(usage.field("prompt_tokens"@))
    &&& is_counter(usage.field("completion_tokens"@))
    &&& is_counter(usage.field("total_tokens"@))
    &&& is_counter(usage.field("prompt_tokens_details"@).field("cached_tokens"@))
    &&& is_counter(usage.field("prompt_cache_hit_tokens"@))
    &&& is_counter(usage.field("cache_write_input_tokens"@))
    &&& is_counter(usage.field("completion_tokens_details"@).field("reasoning_tokens"@))
    &&& is_counter(usage.field("completion_thinking_tokens"@))
}

/// The tokens that a usage report counts. All three totals are needed: a total that
/// is absent is not zero.
pub open spec fn token_usage_view(usage: JsonView) -> Option<TokenUsage> {
    match (
        usage.field("prompt_tokens"@).signed(),
        usage.field("completion_tokens"@).signed(),
        usage.field("total_tokens"@).signed(),
    ) {
        (Some(input), Some(output), Some(total)) => Some(
            TokenUsage {
                input_tokens: input,
                cached_input_tokens: count_or(
                    usage.field("prompt_tokens_details"@).field("cached_tokens"@),
                    count_or(usage.field("prompt_cache_hit_tokens"@), 0),
                ),
                cache_write_input_tokens: count_or(usage.field("cache_write_input_tokens"@), 0),
                output_tokens: output,
                reasoning_output_tokens: count_or(
                    usage.field("completion_tokens_details"@).field("reasoning_tokens"@),
                    count_or(usage.field("completion_thinking_tokens"@), 0),
                ),
                total_tokens: total,
            },
        ),
        _ => None,
    }
}

/// Whether a field of a delta adds content.
pub open spec fn adds_content(value: JsonView) -> bool {
    ||| value matches JsonView::Text(text) && text.len() > 0
    ||| value matches JsonView::Array(items) && items.len() > 0
}

pub open spec fn delta_adds_content(delta: JsonView) -> bool {
    ||| adds_content(delta.field("content"@))
    ||| adds_content(delta.field("reasoning_content"@))
    ||| adds_content(delta.field("refusal"@))
    ||| adds_content(delta.field("tool_calls"@))
}

/// The calls of a complete message, each with its place as its index.
pub open spec fn indexed(calls: Seq<JsonView>) -> Seq<JsonView> {
    Seq::new(calls.len(), |i: int| calls[i].with("index"@, JsonView::Integer(i)))
}

/// A complete message as the delta that gives all of it.
pub open spec fn whole_delta(message: JsonView) -> Result<JsonView, ErrorView> {
    match message.field("tool_calls"@) {
        JsonView::Array(calls) => if forall|i: int| 0 <= i < calls.len() ==> (#[trigger] calls[i]) is Object {
            Ok(message.with("tool_calls"@, JsonView::Array(indexed(calls))))
        } else {
            Err(refusal("invalid complete tool call"@))
        },
        _ => Ok(message),
    }
}

/// The fragments of calls in a delta.
pub open spec fn call_deltas(delta: JsonView) -> Seq<JsonView> {
    match delta.field("tool_calls"@) {
        JsonView::Array(list) => list,
        _ => Seq::empty(),
    }
}

/// Adds fragments of calls, one after the other, up to the first that is refused.
pub open spec fn with_deltas(
    calls: Map<int, CallView>,
    deltas: Seq<JsonView>,
    tools: Map<Seq<char>, ToolView>,
) -> (Map<int, CallView>, Result<(), ErrorView>)
    decreases deltas.len(),
{
    if deltas.len() == 0 {
        (calls, Ok(()))
    } else {
        match with_deltas(calls, deltas.drop_last(), tools) {
            (calls, Err(error)) => (calls, Err(error)),
            (calls, Ok(_)) => with_delta(calls, deltas.last(), tools),
        }
    }
}

/// The assistant message of a completion, with that text.
pub open spec fn message_item(id: Seq<char>, content: Seq<Seq<char>>) -> ItemView {
    ItemView::Message { id: Some(id + "-message"@), role: "assistant"@, content }
}

/// The events of a text fragment.
pub open spec fn text_events(id: Seq<char>, text: Seq<char>, fragment: Seq<char>) -> Seq<EventView> {
    if fragment.len() == 0 {
        Seq::empty()
    } else if text.len() == 0 {
        seq![
            EventView::OutputItemAdded(message_item(id, Seq::empty())),
            EventView::OutputTextDelta(fragment),
        ]
    } else {
        seq![EventView::OutputTextDelta(fragment)]
    }
}

/// What a step of a stream leads to: the completion after it, and the events to
/// report. A step that is refused leaves the completion as far as it came.
pub type StepView = (CompletionView, Result<Seq<EventView>, ErrorView>);

impl CompletionView {
    /// The completion after a chunk's usage report. One that is refused is kept as it
    /// came, but not counted.
    pub open spec fn with_usage(self, chunk: JsonView) -> (CompletionView, Result<(), ErrorView>) {
        let usage = chunk.field("usage"@);
        if !(usage is Object) {
            (self, Ok(()))
        } else if !counters_hold(usage) {
            (
                CompletionView { raw_usage: Some(usage), ..self },
                Err(refusal("usage counters must be non-negative integers"@)),
            )
        } else {
            (CompletionView { raw_usage: Some(usage), usage: token_usage_view(usage), ..self }, Ok(()))
        }
    }

    /// The completion that the provider gave up, where `written` is the chunk that
    /// says so.
    pub open spec fn failed(self, chunk: JsonView, written: Seq<char>) -> CompletionView {
        CompletionView {
            id: match chunk.field("id"@).text() {
                Some(id) => id,
                None => self.id,
            },
            failure: Some("CodeBuddy stream error: "@ + written),
            finish: Some("error"@),
            ..self
        }
    }

    /// The completion after a chunk has named it. The first chunk gives the ID, and
    /// the others do not change it.
    pub open spec fn identified(self, chunk: JsonView) -> StepView {
        let id = chunk.field("id"@);
        if self.id.len() > 0 {
            if !(id is Null) && id != JsonView::Text(self.id) {
                (self, Err(refusal("completion ID changed mid-stream"@)))
            } else {
                (self, Ok(Seq::empty()))
            }
        } else if text_or_empty(id).len() > 0 {
            let created = EventView::Created { response_id: Some(text_or_empty(id)) };
            let events = match chunk.field("model"@).text() {
                Some(model) => seq![created, EventView::ServerModel(model)],
                None => seq![created],
            };
            (CompletionView { id: text_or_empty(id), ..self }, Ok(events))
        } else {
            (self, Err(refusal("stream lacks completion ID"@)))
        }
    }

    /// The completion after a delta. Its texts are taken before its calls are read.
    pub open spec fn with_delta(self, delta: JsonView, tools: Map<Seq<char>, ToolView>) -> StepView {
        let content = delta.field("content"@);
        let reasoning = delta.field("reasoning_content"@);
        let refused = delta.field("refusal"@);
        let calls = delta.field("tool_calls"@);
        if !is_text_or_null(content) || !is_text_or_null(reasoning) || !is_text_or_null(refused) {
            (self, Err(refusal("message text fields must be strings"@)))
        } else if !(calls is Null) && !(calls is Array) {
            (self, Err(refusal("tool_calls must be an array"@)))
        } else if text_or_empty(refused).len() > 0 {
            (self, Err(refusal("upstream refused this request"@)))
        } else {
            let (calls, outcome) = with_deltas(self.calls, call_deltas(delta), tools);
            (
                CompletionView {
                    reasoning: self.reasoning + text_or_empty(reasoning),
                    text: self.text + text_or_empty(content),
                    calls,
                    ..self
                },
                match outcome {
                    Err(error) => Err(error),
                    Ok(_) => Ok(text_events(self.id, self.text, text_or_empty(content))),
                },
            )
        }
    }

    /// The completion after a complete message, which may be repeated.
    pub open spec fn with_whole(self, message: JsonView, delta: JsonView, tools: Map<Seq<char>, ToolView>) -> StepView {
        if !(message is Object) || self.has_delta_content {
            (self, Err(refusal("conflicting complete message and incremental content"@)))
        } else if delta.has_fields() {
            (self, Err(refusal("choice contains both message and delta"@)))
        } else {
            match self.message {
                Some(previous) => if alike(previous, message) {
                    (self, Ok(Seq::empty()))
                } else {
                    (self, Err(refusal("complete message changed mid-stream"@)))
                },
                None => {
                    let started = CompletionView { message: Some(message), ..self };
                    match whole_delta(message) {
                        Err(error) => (started, Err(error)),
                        Ok(delta) => started.with_delta(delta, tools),
                    }
                },
            }
        }
    }

    /// The completion after an incremental delta.
    pub open spec fn with_increment(self, delta: JsonView, tools: Map<Seq<char>, ToolView>) -> StepView {
        if delta_adds_content(delta) && self.message is Some {
            (self, Err(refusal("incremental content follows a complete message"@)))
        } else {
            CompletionView {
                has_delta_content: self.has_delta_content || delta_adds_content(delta),
                ..self
            }.with_delta(delta, tools)
        }
    }

    /// The completion after a choice of a chunk.
    pub open spec fn with_choice(self, choice: JsonView, tools: Map<Seq<char>, ToolView>) -> StepView {
        if choice.field("index"@).unsigned() != Some(0u64) {
            (self, Err(refusal("multiple completion choices are unsupported"@)))
        } else {
            let ended = match choice.field("finish_reason"@).text() {
                Some(reason) => CompletionView { finish: Some(reason), ..self },
                None => self,
            };
            if choice.field("message"@) is Null {
                ended.with_increment(choice.field("delta"@), tools)
            } else {
                ended.with_whole(choice.field("message"@), choice.field("delta"@), tools)
            }
        }
    }

    /// The completion after the choices of a chunk, one after the other, up to the
    /// first that is refused.
    pub open spec fn with_choices(self, choices: Seq<JsonView>, tools: Map<Seq<char>, ToolView>) -> StepView
        decreases choices.len(),
    {
        if choices.len() == 0 {
            (self, Ok(Seq::empty()))
        } else {
            match self.with_choices(choices.drop_last(), tools) {
                (completion, Err(error)) => (completion, Err(error)),
                (completion, Ok(events)) => match completion.with_choice(choices.last(), tools) {
                    (completion, Err(error)) => (completion, Err(error)),
                    (completion, Ok(more)) => (completion, Ok(events + more)),
                },
            }
        }
    }

    /// The completion after a chunk that reports no error.
    pub open spec fn with_content(self, chunk: JsonView, tools: Map<Seq<char>, ToolView>) -> StepView {
        match self.identified(chunk) {
            (completion, Err(error)) => (completion, Err(error)),
            (completion, Ok(events)) => match chunk.field("choices"@) {
                JsonView::Array(choices) => match completion.with_choices(choices, tools) {
                    (completion, Err(error)) => (completion, Err(error)),
                    (completion, Ok(more)) => (completion, Ok(events + more)),
                },
                _ => (completion, Err(refusal("stream lacks choices"@))),
            },
        }
    }

    /// The completion after a chunk. A completion that failed is over: the next one
    /// starts blank.
    pub open spec fn updated(self, chunk: JsonView, tools: Map<Seq<char>, ToolView>) -> StepView {
        match self.with_usage(chunk) {
            (counted, Err(error)) => (counted, Err(error)),
            (counted, Ok(_)) => if chunk.field("error"@).field("code"@) == JsonView::Text(
                "context_length_exceeded"@,
            ) {
                (counted, Err(ErrorView::ContextWindowExceeded))
            } else if !(chunk.field("error"@) is Null) {
                (blank_completion(), counted.failed(chunk, serialized(chunk)).finished(tools))
            } else {
                counted.with_content(chunk, tools)
            },
        }
    }

    /// Whether the completion may end as it is.
    pub open spec fn may_finish(self) -> bool {
        ||| self.finish == Some("stop"@) && self.calls == Map::<int, CallView>::empty()
        ||| self.finish == Some("length"@)
        ||| self.finish == Some("error"@) && self.failure is Some
        ||| self.finish == Some("tool_calls"@) && self.calls != Map::<int, CallView>::empty()
    }

    pub open spec fn reasoning_events(self) -> Seq<EventView> {
        if self.reasoning.len() == 0 {
            Seq::empty()
        } else {
            let item = ItemView::Reasoning { id: self.id + "-reasoning"@, content: self.reasoning };
            seq![EventView::OutputItemAdded(item), EventView::OutputItemDone(item)]
        }
    }

    pub open spec fn message_events(self) -> Seq<EventView> {
        if self.text.len() == 0 {
            Seq::empty()
        } else {
            seq![EventView::OutputItemDone(message_item(self.id, seq![self.text]))]
        }
    }

    /// Whether the completion was cut off.
    pub open spec fn is_cut_off(self) -> bool {
        self.finish == Some("length"@) || self.failure is Some
    }

    /// The event that a completion was cut off, where `usage` is the usage report as
    /// text.
    pub open spec fn cut_off_event(self, usage: Option<Seq<char>>) -> EventView {
        let reason = match self.failure {
            Some(failure) => failure,
            None => "CodeBuddy generation reached its output limit (finish_reason=length); no tool calls were executed"@,
        };
        EventView::Incomplete {
            response_id: self.id,
            token_usage: self.usage,
            reason: match usage {
                Some(usage) => reason + "; CodeBuddy usage: "@ + usage,
                None => reason,
            },
            kind: if self.failure is Some {
                IncompleteKind::ProviderError
            } else {
                IncompleteKind::OutputLimit
            },
        }
    }

    /// The usage report as text.
    pub open spec fn usage_text(self) -> Option<Seq<char>> {
        match self.raw_usage {
            Some(usage) => Some(serialized(usage)),
            None => None,
        }
    }

    /// The event that a completion is complete.
    pub open spec fn completed_event(self) -> EventView {
        EventView::Completed {
            response_id: self.id,
            token_usage: self.usage,
            usage_metadata: match self.raw_usage {
                Some(usage) => Some(
                    UsageMetadataView {
                        amount: None,
                        metadata: Some(
                            JsonView::object().with("provider"@, JsonView::Text("codebuddy"@)).with(
                                "usage"@,
                                usage,
                            ),
                        ),
                    },
                ),
                None => None,
            },
            end_turn: Some(self.calls == Map::<int, CallView>::empty()),
        }
    }

    /// The events of a completion that was cut off. Its calls are not among them.
    pub open spec fn cut_off_events(self, usage: Option<Seq<char>>) -> Seq<EventView> {
        self.reasoning_events() + self.message_events() + seq![self.cut_off_event(usage)]
    }

    /// The events of a completion that is complete, where `calls` are those of its
    /// calls.
    pub open spec fn complete_events(self, calls: Seq<EventView>) -> Seq<EventView> {
        self.reasoning_events() + calls + self.message_events() + seq![self.completed_event()]
    }

    /// The events that end a completion.
    pub open spec fn finished(self, tools: Map<Seq<char>, ToolView>) -> Result<Seq<EventView>, ErrorView> {
        if !self.may_finish() {
            Err(
                refusal(
                    "incomplete or unsupported finish reason; no tool calls were executed"@,
                ),
            )
        } else if self.is_cut_off() {
            Ok(self.cut_off_events(self.usage_text()))
        } else {
            match dispatched(self.calls, MAX_CALLS as nat, tools) {
                Err(error) => Err(error),
                Ok(calls) => Ok(self.complete_events(calls)),
            }
        }
    }
}

fn is_counter_json(value: &Json) -> (is: bool)
    ensures
        is == is_counter(value@),
{
    value.is_null() || match value.as_i64() {
        Some(n) => n >= 0,
        None => false,
    }
}

fn count_or_json(value: &Json, other: i64) -> (count: i64)
    ensures
        count == count_or(value@, other),
{
    match value.as_i64() {
        Some(n) => n,
        None => other,
    }
}

fn check_counters(usage: &Json) -> (hold: bool)
    ensures
        hold == counters_hold(usage@),
{
    is_counter_json(usage.field("prompt_tokens")) && is_counter_json(usage.field("completion_tokens"))
        && is_counter_json(usage.field("total_tokens")) && is_counter_json(
        usage.field("prompt_tokens_details").field("cached_tokens"),
    ) && is_counter_json(usage.field("prompt_cache_hit_tokens")) && is_counter_json(
        usage.field("cache_write_input_tokens"),
    ) && is_counter_json(usage.field("completion_tokens_details").field("reasoning_tokens"))
        && is_counter_json(usage.field("completion_thinking_tokens"))
}

/// The tokens that a usage report counts.
pub fn token_usage(usage: &Json) -> (tokens: Option<TokenUsage>)
    ensures
        tokens == token_usage_view(usage@),
{
    match (
        usage.field("prompt_tokens").as_i64(),
        usage.field("completion_tokens").as_i64(),
        usage.field("total_tokens").as_i64(),
    ) {
        (Some(input), Some(output), Some(total)) => Some(
            TokenUsage {
                input_tokens: input,
                cached_input_tokens: count_or_json(
                    usage.field("prompt_tokens_details").field("cached_tokens"),
                    count_or_json(usage.field("prompt_cache_hit_tokens"), 0),
                ),
                cache_write_input_tokens: count_or_json(usage.field("cache_write_input_tokens"), 0),
                output_tokens: output,
                reasoning_output_tokens: count_or_json(
                    usage.field("completion_tokens_details").field("reasoning_tokens"),
                    count_or_json(usage.field("completion_thinking_tokens"), 0),
                ),
                total_tokens: total,
            },
        ),
        _ => None,
    }
}

fn adds_content_json(value: &Json) -> (adds: bool)
    ensures
        adds == adds_content(value@),
{
    if let Some(text) = value.as_str() {
        return !text.is_empty();
    }
    match value.as_array() {
        Some(items) => {
            assert(items_view(items@).len() == items.len());
            items.len() > 0
        },
        None => false,
    }
}

fn delta_adds_content_json(delta: &Json) -> (adds: bool)
    ensures
        adds == delta_adds_content(delta@),
{
    adds_content_json(delta.field("content")) || adds_content_json(delta.field("reasoning_content"))
        || adds_content_json(delta.field("refusal")) || adds_content_json(delta.field("tool_calls"))
}

/// A complete message as the delta that gives all of it.
fn whole_delta_json(message: &Json) -> (delta: Result<Json, ApiError>)
    ensures
        match delta {
            Ok(delta) => whole_delta(message@) == Ok::<JsonView, ErrorView>(delta@),
            Err(error) => whole_delta(message@) == Err::<JsonView, ErrorView>(error@),
        },
{
    let calls = match message.field("tool_calls").as_array() {
        Some(calls) => calls,
        None => return Ok(message.clone()),
    };
    let ghost all = items_view(calls@);
    let mut list: Vec<Json> = Vec::new();
    let mut i: usize = 0;
    while i < calls.len()
        invariant
            i <= calls.len(),
            all == items_view(calls@),
            message@.field("tool_calls"@) == JsonView::Array(all),
            list.len() == i,
            forall|j: int| 0 <= j < i ==> (#[trigger] all[j]) is Object,
            forall|j: int|
                0 <= j < i ==> (#[trigger] list[j])@ == all[j].with("index"@, JsonView::Integer(j)),
        decreases calls.len() - i,
    {
        assert(all[i as int] == calls[i as int]@);
        if !calls[i].is_object() {
            return Err(invalid("invalid complete tool call"));
        }
        list.push(calls[i].clone().with("index", Json::Unsigned(i as u64)));
        i = i + 1;
    }
    assert(items_view(list@) =~= indexed(all));
    Ok(message.clone().with("tool_calls", Json::Array(list)))
}

/// Fragments that are refused stay refused.
proof fn lemma_deltas_refused(
    calls: Map<int, CallView>,
    deltas: Seq<JsonView>,
    n: int,
    tools: Map<Seq<char>, ToolView>,
)
    requires
        0 <= n <= deltas.len(),
        with_deltas(calls, deltas.take(n), tools).1 is Err,
    ensures
        with_deltas(calls, deltas, tools) == with_deltas(calls, deltas.take(n), tools),
    decreases deltas.len() - n,
{
    if n < deltas.len() {
        assert(deltas.take(n + 1).drop_last() =~= deltas.take(n));
        lemma_deltas_refused(calls, deltas, n + 1, tools);
    } else {
        assert(deltas.take(n) =~= deltas);
    }
}

/// Adds fragments of calls, one after the other.
fn add_deltas(calls: &mut Calls, deltas: &Vec<Json>, tools: &ToolTable) -> (outcome: Result<(), ApiError>)
    requires
        old(calls).wf(),
        tools.wf(),
    ensures
        final(calls).wf(),
        with_deltas(old(calls)@, items_view(deltas@), tools@) == (final(calls)@, outcome_view(outcome)),
{
    let ghost all = items_view(deltas@);
    let ghost before = calls@;
    let mut i: usize = 0;
    assert(all.take(0) =~= Seq::empty());
    while i < deltas.len()
        invariant
            i <= deltas.len(),
            all == items_view(deltas@),
            before == old(calls)@,
            calls.wf(),
            tools.wf(),
            with_deltas(before, all.take(i as int), tools@) == (calls@, Ok::<(), ErrorView>(())),
        decreases deltas.len() - i,
    {
        proof {
            assert(all.take(i + 1).drop_last() =~= all.take(i as int));
            assert(all.take(i + 1).last() == deltas[i as int]@);
            if with_deltas(before, all.take(i + 1), tools@).1 is Err {
                lemma_deltas_refused(before, all, i + 1, tools@);
            }
        }
        calls.add_delta(&deltas[i], tools)?;
        i = i + 1;
    }
    assert(all.take(deltas.len() as int) =~= all);
    Ok(())
}

fn message_item_of(id: &str, content: Vec<String>) -> (item: ResponseItem)
    ensures
        item@ == message_item(id@, views(content@)),
{
    ResponseItem::Message { id: Some(joined(id, "-message")), role: "assistant".to_owned(), content }
}

/// A choice that is refused decides.
proof fn lemma_choices_refused(
    completion: CompletionView,
    choices: Seq<JsonView>,
    n: int,
    tools: Map<Seq<char>, ToolView>,
)
    requires
        0 <= n <= choices.len(),
        completion.with_choices(choices.take(n), tools).1 is Err,
    ensures
        completion.with_choices(choices, tools) == completion.with_choices(choices.take(n), tools),
    decreases choices.len() - n,
{
    if n < choices.len() {
        assert(choices.take(n + 1).drop_last() =~= choices.take(n));
        lemma_choices_refused(completion, choices, n + 1, tools);
    } else {
        assert(choices.take(n) =~= choices);
    }
}

/// The events to report, or why there are none.
pub open spec fn events_view(events: Result<Vec<ResponseEvent>, ApiError>) -> Result<Seq<EventView>, ErrorView> {
    match events {
        Ok(events) => Ok(views(events@)),
        Err(error) => Err(error@),
    }
}

impl Completion {
    pub open spec fn wf(&self) -> bool {
        self.calls.wf()
    }

    /// A completion of which nothing has been seen.
    pub fn new() -> (completion: Completion)
        ensures
            completion.wf(),
            completion@ == blank_completion(),
    {
        Completion {
            id: String::new(),
            text: String::new(),
            reasoning: String::new(),
            calls: Calls::new(),
            finish: None,
            failure: None,
            message: None,
            has_delta_content: false,
            usage: None,
            raw_usage: None,
            bytes: 0,
        }
    }

    fn add_usage(&mut self, chunk: &Json) -> (outcome: Result<(), ApiError>)
        requires
            old(self).wf(),
        ensures
            final(self).wf(),
            old(self)@.with_usage(chunk@) == (final(self)@, outcome_view(outcome)),
    {
        let usage = chunk.field("usage");
        if usage.is_object() {
            self.raw_usage = Some(usage.clone());
            if !check_counters(usage) {
                return Err(invalid("usage counters must be non-negative integers"));
            }
            self.usage = token_usage(usage);
        }
        Ok(())
    }

    /// The completion that the provider gave up, where `written` is the chunk that
    /// says so.
    pub fn failed(self, chunk: &Json, written: &str) -> (completion: Completion)
        requires
            self.wf(),
        ensures
            completion.wf(),
            completion@ == self@.failed(chunk@, written@),
    {
        let mut completion = self;
        if let Some(id) = chunk.field("id").as_str() {
            completion.id = id.to_owned();
        }
        completion.failure = Some(joined("CodeBuddy stream error: ", written));
        completion.finish = Some("error".to_owned());
        completion
    }

    fn identify(&mut self, chunk: &Json) -> (events: Result<Vec<ResponseEvent>, ApiError>)
        requires
            old(self).wf(),
        ensures
            final(self).wf(),
            old(self)@.identified(chunk@) == (final(self)@, events_view(events)),
    {
        let mut events: Vec<ResponseEvent> = Vec::new();
        let id = chunk.field("id");
        if !self.id.as_str().is_empty() {
            if !id.is_null() && !id.is_text(self.id.as_str()) {
                return Err(invalid("completion ID changed mid-stream"));
            }
            assert(views(events@) =~= Seq::empty());
            return Ok(events);
        }
        let id = match id.as_str() {
            Some(id) => id,
            None => return Err(invalid("stream lacks completion ID")),
        };
        if id.is_empty() {
            return Err(invalid("stream lacks completion ID"));
        }
        self.id = id.to_owned();
        events.push(ResponseEvent::Created { response_id: Some(id.to_owned()) });
        if let Some(model) = chunk.field("model").as_str() {
            events.push(ResponseEvent::ServerModel(model.to_owned()));
        }
        assert(views(events@) =~= old(self)@.identified(chunk@).1->Ok_0);
        Ok(events)
    }

    /// Adds a delta.
    pub fn add_delta(&mut self, delta: &Json, tools: &ToolTable) -> (events: Result<
        Vec<ResponseEvent>,
        ApiError,
    >)
        requires
            old(self).wf(),
            tools.wf(),
        ensures
            final(self).wf(),
            old(self)@.with_delta(delta@, tools@) == (final(self)@, events_view(events)),
    {
        let content = delta.field("content");
        let reasoning = delta.field("reasoning_content");
        let refused = delta.field("refusal");
        if !(content.is_null() || content.as_str().is_some()) || !(reasoning.is_null()
            || reasoning.as_str().is_some()) || !(refused.is_null() || refused.as_str().is_some()) {
            return Err(invalid("message text fields must be strings"));
        }
        let calls = delta.field("tool_calls");
        if !calls.is_null() && calls.as_array().is_none() {
            return Err(invalid("tool_calls must be an array"));
        }
        if let Some(text) = refused.as_str() {
            if !text.is_empty() {
                return Err(invalid("upstream refused this request"));
            }
        }
        let mut events: Vec<ResponseEvent> = Vec::new();
        if let Some(part) = reasoning.as_str() {
            self.reasoning.append(part);
        }
        if let Some(part) = content.as_str() {
            if !part.is_empty() {
                if self.text.as_str().is_empty() {
                    let item = message_item_of(self.id.as_str(), Vec::new());
                    events.push(ResponseEvent::OutputItemAdded(item));
                }
                self.text.append(part);
                events.push(ResponseEvent::OutputTextDelta(part.to_owned()));
            }
        }
        assert(views(events@) =~= text_events(old(self)@.id, old(self)@.text, text_or_empty(content@)));
        assert(self.text@ =~= old(self)@.text + text_or_empty(content@));
        assert(self.reasoning@ =~= old(self)@.reasoning + text_or_empty(reasoning@));
        if let Some(deltas) = calls.as_array() {
            add_deltas(&mut self.calls, deltas, tools)?;
        }
        Ok(events)
    }

    fn add_whole(&mut self, message: &Json, delta: &Json, tools: &ToolTable) -> (events: Result<
        Vec<ResponseEvent>,
        ApiError,
    >)
        requires
            old(self).wf(),
            tools.wf(),
        ensures
            final(self).wf(),
            old(self)@.with_whole(message@, delta@, tools@) == (final(self)@, events_view(events)),
    {
        if !message.is_object() || self.has_delta_content {
            return Err(invalid("conflicting complete message and incremental content"));
        }
        if delta.has_fields() {
            return Err(invalid("choice contains both message and delta"));
        }
        if let Some(previous) = &self.message {
            if *previous != *message {
                return Err(invalid("complete message changed mid-stream"));
            }
            return Ok(Vec::new());
        }
        self.message = Some(message.clone());
        let delta = whole_delta_json(message)?;
        self.add_delta(&delta, tools)
    }

    fn add_increment(&mut self, delta: &Json, tools: &ToolTable) -> (events: Result<
        Vec<ResponseEvent>,
        ApiError,
    >)
        requires
            old(self).wf(),
            tools.wf(),
        ensures
            final(self).wf(),
            old(self)@.with_increment(delta@, tools@) == (final(self)@, events_view(events)),
    {
        let adds = delta_adds_content_json(delta);
        if adds && self.message.is_some() {
            return Err(invalid("incremental content follows a complete message"));
        }
        self.has_delta_content = self.has_delta_content || adds;
        self.add_delta(delta, tools)
    }

    fn add_choice(&mut self, choice: &Json, tools: &ToolTable) -> (events: Result<Vec<ResponseEvent>, ApiError>)
        requires
            old(self).wf(),
            tools.wf(),
        ensures
            final(self).wf(),
            old(self)@.with_choice(choice@, tools@) == (final(self)@, events_view(events)),
    {
        match choice.field("index").as_u64() {
            Some(0) => {},
            _ => return Err(invalid("multiple completion choices are unsupported")),
        }
        if let Some(reason) = choice.field("finish_reason").as_str() {
            self.finish = Some(reason.to_owned());
        }
        let message = choice.field("message");
        if message.is_null() {
            self.add_increment(choice.field("delta"), tools)
        } else {
            self.add_whole(message, choice.field("delta"), tools)
        }
    }

    fn add_choices(&mut self, choices: &Vec<Json>, tools: &ToolTable) -> (events: Result<
        Vec<ResponseEvent>,
        ApiError,
    >)
        requires
            old(self).wf(),
            tools.wf(),
        ensures
            final(self).wf(),
            old(self)@.with_choices(items_view(choices@), tools@) == (final(self)@, events_view(events)),
    {
        let ghost all = items_view(choices@);
        let ghost before = self@;
        let mut events: Vec<ResponseEvent> = Vec::new();
        let mut i: usize = 0;
        assert(all.take(0) =~= Seq::empty());
        while i < choices.len()
            invariant
                i <= choices.len(),
                all == items_view(choices@),
                before == old(self)@,
                self.wf(),
                tools.wf(),
                before.with_choices(all.take(i as int), tools@) == (
                    self@,
                    Ok::<Seq<EventView>, ErrorView>(views(events@)),
                ),
            decreases choices.len() - i,
        {
            proof {
                assert(all.take(i + 1).drop_last() =~= all.take(i as int));
                assert(all.take(i + 1).last() == choices[i as int]@);
                if before.with_choices(all.take(i + 1), tools@).1 is Err {
                    lemma_choices_refused(before, all, i + 1, tools@);
                }
            }
            let mut more = self.add_choice(&choices[i], tools)?;
            events.append(&mut more);
            i = i + 1;
        }
        assert(all.take(choices.len() as int) =~= all);
        Ok(events)
    }

    fn add_content(&mut self, chunk: &Json, tools: &ToolTable) -> (events: Result<Vec<ResponseEvent>, ApiError>)
        requires
            old(self).wf(),
            tools.wf(),
        ensures
            final(self).wf(),
            old(self)@.with_content(chunk@, tools@) == (final(self)@, events_view(events)),
    {
        let mut events = self.identify(chunk)?;
        let choices = match chunk.field("choices").as_array() {
            Some(choices) => choices,
            None => return Err(invalid("stream lacks choices")),
        };
        let mut more = self.add_choices(choices, tools)?;
        events.append(&mut more);
        Ok(events)
    }
}

impl Completion {
    fn may_finish(&self) -> (may: bool)
        ensures
            may == self@.may_finish(),
    {
        match &self.finish {
            Some(finish) => {
                let finish = finish.as_str();
                (same_text(finish, "stop") && self.calls.is_empty()) || same_text(finish, "length") || (
                same_text(finish, "error") && self.failure.is_some()) || (same_text(finish, "tool_calls")
                    && !self.calls.is_empty())
            },
            None => false,
        }
    }

    fn is_cut_off(&self) -> (cut_off: bool)
        ensures
            cut_off == self@.is_cut_off(),
    {
        self.failure.is_some() || match &self.finish {
            Some(finish) => same_text(finish.as_str(), "length"),
            None => false,
        }
    }

    fn reasoning_events(&self) -> (events: Vec<ResponseEvent>)
        ensures
            views(events@) == self@.reasoning_events(),
    {
        let mut events: Vec<ResponseEvent> = Vec::new();
        if !self.reasoning.as_str().is_empty() {
            let item = ResponseItem::Reasoning {
                id: joined(self.id.as_str(), "-reasoning"),
                content: self.reasoning.clone(),
            };
            events.push(ResponseEvent::OutputItemAdded(item.clone()));
            events.push(ResponseEvent::OutputItemDone(item));
        }
        assert(views(events@) =~= self@.reasoning_events());
        events
    }

    fn message_events(&self) -> (events: Vec<ResponseEvent>)
        ensures
            views(events@) == self@.message_events(),
    {
        let mut events: Vec<ResponseEvent> = Vec::new();
        if !self.text.as_str().is_empty() {
            let mut content: Vec<String> = Vec::new();
            content.push(self.text.clone());
            assert(views(content@) =~= seq![self.text@]);
            events.push(ResponseEvent::OutputItemDone(message_item_of(self.id.as_str(), content)));
        }
        assert(views(events@) =~= self@.message_events());
        events
    }

    /// The events of a completion that was cut off, where `usage` is the usage report
    /// as text.
    pub fn cut_off_events(self, usage: Option<String>) -> (events: Vec<ResponseEvent>)
        ensures
            views(events@) == self@.cut_off_events(optional_text(usage)),
    {
        let mut events = self.reasoning_events();
        let mut message = self.message_events();
        events.append(&mut message);
        let (kind, mut reason) = match self.failure {
            Some(failure) => (IncompleteKind::ProviderError, failure),
            None => (
                IncompleteKind::OutputLimit,
                "CodeBuddy generation reached its output limit (finish_reason=length); no tool calls were executed".to_owned(),
            ),
        };
        if let Some(usage) = usage {
            reason.append("; CodeBuddy usage: ");
            reason.append(usage.as_str());
        }
        events.push(
            ResponseEvent::Incomplete {
                response_id: self.id,
                token_usage: self.usage,
                reason,
                kind,
            },
        );
        assert(views(events@) =~= self@.cut_off_events(optional_text(usage)));
        events
    }

    /// The events of a completion that is complete, where `calls` are those of its
    /// calls.
    pub fn complete_events(self, calls: Vec<ResponseEvent>) -> (events: Vec<ResponseEvent>)
        ensures
            views(events@) == self@.complete_events(views(calls@)),
    {
        let mut events = self.reasoning_events();
        let mut calls = calls;
        let mut message = self.message_events();
        let ghost wanted = self@.complete_events(views(calls@));
        events.append(&mut calls);
        events.append(&mut message);
        let end_turn = self.calls.is_empty();
        let usage_metadata = match self.raw_usage {
            Some(usage) => Some(
                ResponseUsageMetadata {
                    amount: None,
                    metadata: Some(
                        Json::object().with("provider", Json::of_text("codebuddy")).with("usage", usage),
                    ),
                },
            ),
            None => None,
        };
        events.push(
            ResponseEvent::Completed {
                response_id: self.id,
                token_usage: self.usage,
                usage_metadata,
                end_turn: Some(end_turn),
            },
        );
        assert(views(events@) =~= wanted);
        events
    }

    /// The events that end a completion.
    pub fn finish(self, tools: &ToolTable) -> (events: Result<Vec<ResponseEvent>, ApiError>)
        requires
            tools.wf(),
        ensures
            match events {
                Ok(events) => self@.finished(tools@) == Ok::<Seq<EventView>, ErrorView>(views(events@)),
                Err(error) => self@.finished(tools@) == Err::<Seq<EventView>, ErrorView>(error@),
            },
    {
        if !self.may_finish() {
            return Err(
                invalid("incomplete or unsupported finish reason; no tool calls were executed"),
            );
        }
        if self.is_cut_off() {
            let usage = match &self.raw_usage {
                Some(usage) => Some(text_of(usage)),
                None => None,
            };
            return Ok(self.cut_off_events(usage));
        }
        let calls = dispatch(&self.calls, tools)?;
        Ok(self.complete_events(calls))
    }

    /// Takes a chunk of the stream, and gives the events to report. A chunk that is
    /// refused leaves the completion as far as the chunk was read, and one that
    /// reports a failure leaves it blank.
    pub fn update(&mut self, chunk: Json, tools: &ToolTable) -> (events: Result<Vec<ResponseEvent>, ApiError>)
        requires
            old(self).wf(),
            tools.wf(),
        ensures
            final(self).wf(),
            old(self)@.updated(chunk@, tools@) == (final(self)@, events_view(events)),
    {
        self.add_usage(&chunk)?;
        let error = chunk.field("error");
        if error.field("code").is_text("context_length_exceeded") {
            return Err(ApiError::ContextWindowExceeded);
        }
        if !error.is_null() {
            let mut completion = Completion::new();
            std::mem::swap(&mut completion, self);
            return completion.failed(&chunk, text_of(&chunk).as_str()).finish(tools);
        }
        self.add_content(&chunk, tools)
    }
}

} // verus!
