//! What kind of error a refusal is.

use vstd::prelude::*;

use crate::calls::{with_delta, CallView, MAX_CALLS};
use crate::completion::{call_deltas, whole_delta, with_deltas, CompletionView};
use crate::dispatch::{dispatched, dispatched_call};
use crate::error::ErrorView;
use crate::history::{parts_view, text_view, HistoryView};
use crate::json::JsonView;
use crate::request::{declared_view, encode_view, settings_view, DeclaredView};
use crate::tools::ToolView;

verus! {

/// Whether an error is that a request or a completion is invalid, and says so in the
/// name of the adapter.
pub open spec fn is_invalid(error: ErrorView) -> bool {
    error matches ErrorView::InvalidRequest(message) && "CodeBuddy Chat: "@.is_prefix_of(message)
}

proof fn lemma_refusal(message: Seq<char>)
    ensures
        is_invalid(crate::error::refusal(message)),
{
    let start = "CodeBuddy Chat: "@;
    assert((start + message).subrange(0, start.len() as int) =~= start);
}

proof fn lemma_all_refusals()
    ensures
        forall|message: Seq<char>| is_invalid(#[trigger] crate::error::refusal(message)),
{
    assert forall|message: Seq<char>| is_invalid(#[trigger] crate::error::refusal(message)) by {
        lemma_refusal(message);
    }
}

proof fn lemma_parts(parts: Seq<JsonView>)
    ensures
        parts_view(parts) matches Err(error) ==> is_invalid(error),
    decreases parts.len(),
{
    lemma_all_refusals();
    if parts.len() > 0 {
        lemma_parts(parts.drop_last());
    }
}

proof fn lemma_text(content: JsonView)
    ensures
        text_view(content) matches Err(error) ==> is_invalid(error),
{
    lemma_all_refusals();
    if let JsonView::Array(parts) = content {
        lemma_parts(parts);
    }
}

proof fn lemma_read(history: HistoryView, item: JsonView)
    ensures
        history.read(item) matches Err(error) ==> is_invalid(error),
{
    lemma_all_refusals();
    lemma_text(item.field("content"@));
    lemma_text(item.field("summary"@));
    lemma_text(item.field("output"@));
}

proof fn lemma_read_all(history: HistoryView, items: Seq<JsonView>)
    ensures
        history.read_all(items) matches Err(error) ==> is_invalid(error),
    decreases items.len(),
{
    if items.len() > 0 {
        lemma_read_all(history, items.drop_last());
        if let Ok(between) = history.read_all(items.drop_last()) {
            lemma_read(between, items.last());
        }
    }
}

proof fn lemma_declare_all(declared: DeclaredView, namespace: Option<Seq<char>>, specs: Seq<JsonView>)
    ensures
        declared.declare_all(namespace, specs) matches Err(error) ==> is_invalid(error),
    decreases specs.len(),
{
    lemma_all_refusals();
    if specs.len() > 0 {
        lemma_declare_all(declared, namespace, specs.drop_last());
    }
}

proof fn lemma_declare_specs(declared: DeclaredView, specs: Seq<JsonView>)
    ensures
        declared.declare_specs(specs) matches Err(error) ==> is_invalid(error),
    decreases specs.len(),
{
    lemma_all_refusals();
    if specs.len() > 0 {
        lemma_declare_specs(declared, specs.drop_last());
        if let Ok(between) = declared.declare_specs(specs.drop_last()) {
            let spec = specs.last();
            if let JsonView::Array(children) = spec.field("tools"@) {
                if let JsonView::Text(namespace) = spec.field("name"@) {
                    lemma_declare_all(between, Some(namespace), children);
                }
            }
        }
    }
}

proof fn lemma_declare_items(declared: DeclaredView, items: Seq<JsonView>)
    ensures
        declared.declare_items(items) matches Err(error) ==> is_invalid(error),
    decreases items.len(),
{
    if items.len() > 0 {
        lemma_declare_items(declared, items.drop_last());
        if let Ok(between) = declared.declare_items(items.drop_last()) {
            lemma_declare_specs(between, items.last().field("tools"@)->Array_0);
        }
    }
}

/// A request that is not encoded is refused as invalid.
pub proof fn refused_requests_are_invalid(request: JsonView)
    ensures
        encode_view(request) matches Err(error) ==> is_invalid(error),
{
    lemma_all_refusals();
    if let JsonView::Array(specs) = request.field("tools"@) {
        lemma_declare_specs(DeclaredView::none(), specs);
    }
    if let JsonView::Array(items) = request.field("input"@) {
        let listed = match request.field("tools"@) {
            JsonView::Array(specs) => DeclaredView::none().declare_specs(specs)->Ok_0,
            _ => DeclaredView::none(),
        };
        lemma_declare_items(listed, items);
    }
    if let Ok(declared) = declared_view(request) {
        let history = crate::request::opened(request, declared.table);
        lemma_read_all(history, request.field("input"@)->Array_0);
    }
    assert(settings_view(request) matches Err(error) ==> is_invalid(error));
}

proof fn lemma_deltas(calls: Map<int, CallView>, deltas: Seq<JsonView>, tools: Map<Seq<char>, ToolView>)
    ensures
        with_deltas(calls, deltas, tools).1 matches Err(error) ==> is_invalid(error),
    decreases deltas.len(),
{
    lemma_all_refusals();
    if deltas.len() > 0 {
        lemma_deltas(calls, deltas.drop_last(), tools);
        let between = with_deltas(calls, deltas.drop_last(), tools).0;
        assert(with_delta(between, deltas.last(), tools).1 matches Err(error) ==> is_invalid(error));
    }
}

proof fn lemma_choice(completion: CompletionView, choice: JsonView, tools: Map<Seq<char>, ToolView>)
    ensures
        completion.with_choice(choice, tools).1 matches Err(error) ==> is_invalid(error),
{
    lemma_all_refusals();
    lemma_deltas(completion.calls, call_deltas(choice.field("delta"@)), tools);
    if let Ok(whole) = whole_delta(choice.field("message"@)) {
        lemma_deltas(completion.calls, call_deltas(whole), tools);
    }
}

proof fn lemma_choices(completion: CompletionView, choices: Seq<JsonView>, tools: Map<Seq<char>, ToolView>)
    ensures
        completion.with_choices(choices, tools).1 matches Err(error) ==> is_invalid(error),
    decreases choices.len(),
{
    if choices.len() > 0 {
        lemma_choices(completion, choices.drop_last(), tools);
        lemma_choice(completion.with_choices(choices.drop_last(), tools).0, choices.last(), tools);
    }
}

proof fn lemma_dispatched(calls: Map<int, CallView>, count: nat, tools: Map<Seq<char>, ToolView>)
    ensures
        dispatched(calls, count, tools) matches Err(error) ==> is_invalid(error),
    decreases count,
{
    lemma_all_refusals();
    if count > 0 {
        lemma_dispatched(calls, (count - 1) as nat, tools);
        assert(dispatched_call(calls, count - 1, tools) matches Err(error) ==> is_invalid(error));
    }
}

/// A completion that does not end is refused as invalid.
pub proof fn refused_ends_are_invalid(completion: CompletionView, tools: Map<Seq<char>, ToolView>)
    ensures
        completion.finished(tools) matches Err(error) ==> is_invalid(error),
{
    lemma_all_refusals();
    lemma_dispatched(completion.calls, MAX_CALLS as nat, tools);
}

/// A chunk that is not taken in is refused as invalid, unless the provider says that
/// the context is too long: that is an error of its own.
pub proof fn refused_chunks_are_invalid(completion: CompletionView, chunk: JsonView, tools: Map<Seq<char>, ToolView>)
    ensures
        completion.updated(chunk, tools).1 matches Err(error) ==> {
            ||| is_invalid(error)
            ||| error is ContextWindowExceeded && chunk.field("error"@).field("code"@) == JsonView::Text(
                "context_length_exceeded"@,
            )
        },
{
    lemma_all_refusals();
    let counted = completion.with_usage(chunk).0;
    let named = counted.identified(chunk).0;
    if let JsonView::Array(choices) = chunk.field("choices"@) {
        lemma_choices(named, choices, tools);
    }
    refused_ends_are_invalid(counted.failed(chunk, crate::wire::serialized(chunk)), tools);
}

} // verus!
