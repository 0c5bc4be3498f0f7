//! Which chunks a completion takes in and which it refuses.

use vstd::prelude::*;

use crate::calls::{
    call_at, extended, fragment_view, is_first, located, read_so_far, taken_elsewhere, with_delta, CallView,
};
use crate::completion::{
    call_deltas, delta_adds_content, indexed, whole_delta, with_deltas, CompletionView,
};
use crate::error::ErrorView;
use crate::event::EventView;
use crate::json::{alike, JsonView};
use crate::laws::assembly::all_choices;
use crate::laws::chunks::{lemma_no_error, list_in, report_no_error, run, text_in};
use crate::laws::completion::{calls_hold, chunks_only_add, cut_off_completions_run_nothing, lemma_deltas};
use crate::laws::outcome::counts_hold;
use crate::laws::stream::transcript;
use crate::stream::{ends, lemma_until_end, reply_view, until_end, IncomingView};
use crate::tools::{starts_name, ToolView};
use crate::wire::{parsed, serialized};

verus! {

/// Whether a value is a text, or not given.
pub open spec fn is_text_at_most(value: JsonView) -> bool {
    value is Text || value is Null
}

/// Whether an advertised name begins with a text.
pub open spec fn begins_a_name(tools: Map<Seq<char>, ToolView>, text: Seq<char>) -> bool {
    exists|key: Seq<char>| #[trigger]
        tools.dom().contains(key) && text.len() <= key.len() && key.take(text.len() as int) == text
}

/// Whether a part of a name can follow the readings of those before it: an advertised
/// name goes on like that, or it is repeated as a whole.
pub open spec fn can_go_on(names: Set<Seq<char>>, part: Seq<char>, tools: Map<Seq<char>, ToolView>) -> bool {
    ||| names == Set::<Seq<char>>::empty() && begins_a_name(tools, part)
    ||| exists|name: Seq<char>| #[trigger]
        names.contains(name) && (begins_a_name(tools, name + part) || (name == part && tools.dom().contains(name)))
}

/// Whether a fragment can be added to the call of an index.
pub open spec fn can_be_added(
    calls: Map<int, CallView>,
    delta: JsonView,
    index: int,
    tools: Map<Seq<char>, ToolView>,
) -> bool {
    let part = text_in(delta.field("function"@).field("name"@));
    let held = calls.dom().contains(index);
    &&& if delta.has("index"@) {
        delta.field("index"@) == JsonView::Integer(index)
    } else {
        held && delta.field("id"@) == JsonView::Text(calls[index].id)
    }
    &&& delta.field("id"@) matches JsonView::Text(id) ==> {
        &&& forall|other: int| #[trigger] calls.dom().contains(other) && other != index ==> calls[other].id != id
        &&& held && calls[index].id.len() > 0 ==> calls[index].id == id
    }
    &&& part.len() > 0 ==> if held {
        can_go_on(calls[index].names, part, tools)
    } else {
        begins_a_name(tools, part)
    }
}

/// Whether a fragment of a call can be taken in: its fields are of the right kind, and
/// it can be added to one call.
#[verifier::opaque]
pub open spec fn can_take(calls: Map<int, CallView>, delta: JsonView, tools: Map<Seq<char>, ToolView>) -> bool {
    &&& is_text_at_most(delta.field("function"@).field("name"@))
    &&& is_text_at_most(delta.field("function"@).field("arguments"@))
    &&& is_text_at_most(delta.field("id"@))
    &&& delta.field("id"@) matches JsonView::Text(id) ==> id.len() > 0
    &&& delta.has("index"@) ==> (delta.field("index"@) matches JsonView::Integer(n) && 0 <= n < 256)
    &&& exists|index: int| #[trigger] can_be_added(calls, delta, index, tools)
}

proof fn lemma_begins(tools: Map<Seq<char>, ToolView>, text: Seq<char>)
    ensures
        begins_a_name(tools, text) <==> starts_name(tools, text),
{
    if begins_a_name(tools, text) {
        let key = choose|key: Seq<char>| #[trigger]
            tools.dom().contains(key) && text.len() <= key.len() && key.take(text.len() as int) == text;
        assert(key.subrange(0, text.len() as int) =~= text);
        assert(text.is_prefix_of(key));
    }
    if starts_name(tools, text) {
        let key = choose|key: Seq<char>| #[trigger] tools.dom().contains(key) && text.is_prefix_of(key);
        assert(key.take(text.len() as int) =~= text);
    }
}

proof fn lemma_go_on(names: Set<Seq<char>>, part: Seq<char>, tools: Map<Seq<char>, ToolView>)
    requires
        part.len() > 0,
    ensures
        extended(read_so_far(names), part, tools) != Set::<Seq<char>>::empty() <==> can_go_on(names, part, tools),
{
    let read = read_so_far(names);
    let after = extended(read, part, tools);
    let none = Seq::<char>::empty();
    if can_go_on(names, part, tools) {
        if names == Set::<Seq<char>>::empty() {
            lemma_begins(tools, part);
            assert(read.contains(none));
            assert(none + part =~= part);
            assert(after.contains(part));
        } else {
            let name = choose|name: Seq<char>| #[trigger]
                names.contains(name) && (begins_a_name(tools, name + part) || (name == part && tools.dom().contains(
                    name,
                )));
            lemma_begins(tools, name + part);
            if begins_a_name(tools, name + part) {
                assert(after.contains(name + part));
            } else {
                assert(after.contains(name));
            }
        }
    }
    if after != Set::<Seq<char>>::empty() {
        assert(exists|name: Seq<char>| after.contains(name)) by {
            if !exists|name: Seq<char>| after.contains(name) {
                assert(after =~= Set::empty());
            }
        }
        let name = choose|name: Seq<char>| after.contains(name);
        if exists|before: Seq<char>| #[trigger]
            read.contains(before) && name == before + part && starts_name(tools, name) {
            let before = choose|before: Seq<char>| #[trigger]
                read.contains(before) && name == before + part && starts_name(tools, name);
            lemma_begins(tools, name);
            if names == Set::<Seq<char>>::empty() {
                assert(before =~= none);
                assert(name =~= part);
            } else {
                assert(names.contains(before));
            }
        } else {
            if names == Set::<Seq<char>>::empty() {
                assert(name =~= none);
            } else {
                assert(names.contains(name));
            }
        }
    }
}

proof fn lemma_added(calls: Map<int, CallView>, delta: JsonView, index: int, tools: Map<Seq<char>, ToolView>)
    requires
        fragment_view(delta) is Ok,
        located(calls, fragment_view(delta)->Ok_0) == Ok::<int, ErrorView>(index),
        delta.has("index"@) ==> delta.field("index"@) == JsonView::Integer(index),
        !delta.has("index"@) ==> calls.dom().contains(index) && delta.field("id"@) == JsonView::Text(
            calls[index].id,
        ),
    ensures
        with_delta(calls, delta, tools).1 is Ok <==> can_be_added(calls, delta, index, tools),
{
    let fragment = fragment_view(delta)->Ok_0;
    let call = call_at(calls, index);
    if fragment.name.len() > 0 {
        lemma_go_on(call.names, fragment.name, tools);
        if !calls.dom().contains(index) {
            assert(can_go_on(call.names, fragment.name, tools) <==> begins_a_name(tools, fragment.name));
        }
    }
    if let Some(id) = fragment.id {
        assert(taken_elsewhere(calls, id, index) <==> !(forall|other: int| #[trigger]
            calls.dom().contains(other) && other != index ==> calls[other].id != id));
    }
}

/// A fragment of a call is taken in exactly where its fields are of the right kind, it
/// says which call it belongs to, it takes no ID of another call and changes none, and
/// its part of the name goes on with the name of an advertised tool.
pub proof fn fragments_are_taken_in(calls: Map<int, CallView>, delta: JsonView, tools: Map<Seq<char>, ToolView>)
    requires
        calls_hold(calls),
    ensures
        with_delta(calls, delta, tools).1 is Ok <==> can_take(calls, delta, tools),
{
    reveal(can_take);
    if let Ok(fragment) = fragment_view(delta) {
        if let JsonView::Text(id) = delta.field("id"@) {
            if id.len() == 0 {
                assert(id =~= Seq::empty());
            }
        }
        if delta.has("index"@) {
            let index = fragment.index->Some_0;
            lemma_added(calls, delta, index, tools);
            if can_take(calls, delta, tools) {
                let other = choose|index: int| #[trigger] can_be_added(calls, delta, index, tools);
                assert(other == index);
            }
        } else {
            if let Ok(index) = located(calls, fragment) {
                let id = fragment.id->Some_0;
                assert(is_first(calls, id, index));
                lemma_added(calls, delta, index, tools);
                if can_take(calls, delta, tools) {
                    let other = choose|index: int| #[trigger] can_be_added(calls, delta, index, tools);
                    assert(calls.dom().contains(other) && calls[other].id == id);
                    assert(other == index);
                }
            } else if can_take(calls, delta, tools) {
                let index = choose|index: int| #[trigger] can_be_added(calls, delta, index, tools);
                let id = fragment.id->Some_0;
                assert(calls.dom().contains(index) && calls[index].id == id);
                assert(is_first(calls, id, index)) by {
                    assert forall|other: int| 0 <= other < index && #[trigger] calls.dom().contains(other) implies calls[other].id
                        != id by {}
                }
            }
        }
    } else {
        if can_take(calls, delta, tools) {
            if let JsonView::Text(id) = delta.field("id"@) {
                assert(id != Seq::<char>::empty());
            }
        }
    }
}

/// Whether fragments can be taken in, each after those before it.
pub open spec fn can_take_all(
    calls: Map<int, CallView>,
    fragments: Seq<JsonView>,
    tools: Map<Seq<char>, ToolView>,
) -> bool
    decreases fragments.len(),
{
    fragments.len() > 0 ==> {
        let before = fragments.drop_last();
        &&& can_take_all(calls, before, tools)
        &&& can_take(with_deltas(calls, before, tools).0, fragments.last(), tools)
    }
}

proof fn lemma_take_all(calls: Map<int, CallView>, fragments: Seq<JsonView>, tools: Map<Seq<char>, ToolView>)
    requires
        calls_hold(calls),
    ensures
        with_deltas(calls, fragments, tools).1 is Ok <==> can_take_all(calls, fragments, tools),
    decreases fragments.len(),
{
    if fragments.len() > 0 {
        let rest = fragments.drop_last();
        lemma_take_all(calls, rest, tools);
        lemma_deltas(calls, rest, tools);
        if let (between, Ok(_)) = with_deltas(calls, rest, tools) {
            fragments_are_taken_in(between, fragments.last(), tools);
        }
    }
}

/// Whether a value brings content.
pub open spec fn is_content(value: JsonView) -> bool {
    text_in(value).len() > 0 || list_in(value).len() > 0
}

/// Whether a delta brings content.
pub open spec fn brings_content(delta: JsonView) -> bool {
    ||| is_content(delta.field("content"@))
    ||| is_content(delta.field("reasoning_content"@))
    ||| is_content(delta.field("refusal"@))
    ||| is_content(delta.field("tool_calls"@))
}

/// Whether the texts of a delta or a message are texts, nothing is refused, and its
/// calls are a list.
pub open spec fn is_plain_content(delta: JsonView) -> bool {
    &&& is_text_at_most(delta.field("content"@))
    &&& is_text_at_most(delta.field("reasoning_content"@))
    &&& is_text_at_most(delta.field("refusal"@))
    &&& text_in(delta.field("refusal"@)).len() == 0
    &&& delta.field("tool_calls"@) is Null || delta.field("tool_calls"@) is Array
}

/// The calls of a complete message as fragments, each with its place.
pub open spec fn numbered(list: Seq<JsonView>) -> Seq<JsonView> {
    list.map(|i: int, call: JsonView| call.with("index"@, JsonView::Integer(i)))
}

/// Whether a choice fits what a completion holds: it is the first and only one; an
/// increment follows no complete message with content; and a complete message follows
/// no increment with content, stands alone, and is the same where it is repeated.
#[verifier::opaque]
pub open spec fn fits(completion: CompletionView, choice: JsonView, tools: Map<Seq<char>, ToolView>) -> bool {
    let delta = choice.field("delta"@);
    let message = choice.field("message"@);
    &&& choice.field("index"@) == JsonView::Integer(0)
    &&& if message is Null {
        &&& brings_content(delta) ==> completion.message is None
        &&& is_plain_content(delta)
        &&& can_take_all(completion.calls, list_in(delta.field("tool_calls"@)), tools)
    } else {
        &&& message is Object
        &&& !completion.has_delta_content
        &&& forall|name: Seq<char>| !#[trigger] delta.has(name)
        &&& match completion.message {
            Some(previous) => alike(previous, message),
            None => {
                let list = list_in(message.field("tool_calls"@));
                &&& is_plain_content(message)
                &&& forall|i: int| 0 <= i < list.len() ==> (#[trigger] list[i]) is Object
                &&& can_take_all(completion.calls, numbered(list), tools)
            },
        }
    }
}

/// A choice is taken in exactly where it fits what the completion holds.
pub proof fn choices_are_taken_in(completion: CompletionView, choice: JsonView, tools: Map<Seq<char>, ToolView>)
    requires
        calls_hold(completion.calls),
    ensures
        completion.with_choice(choice, tools).1 is Ok <==> fits(completion, choice, tools),
{
    reveal(fits);
    let delta = choice.field("delta"@);
    let message = choice.field("message"@);
    reveal_strlit("tool_calls");
    reveal_strlit("content");
    reveal_strlit("reasoning_content");
    reveal_strlit("refusal");
    assert("tool_calls"@.len() == 10 && "content"@.len() == 7 && "reasoning_content"@.len() == 17);
    assert("refusal"@.len() == 7 && "refusal"@[0] != "content"@[0]);
    if message is Null {
        assert(brings_content(delta) <==> delta_adds_content(delta));
        assert(call_deltas(delta) == list_in(delta.field("tool_calls"@)));
        lemma_take_all(completion.calls, list_in(delta.field("tool_calls"@)), tools);
    } else {
        assert(delta.has_fields() <==> !(forall|name: Seq<char>| !#[trigger] delta.has(name))) by {
            if delta.has_fields() {
                let name = choose|name: Seq<char>| #[trigger] delta->Object_0.dom().contains(name);
                assert(delta.has(name));
            }
        }
        if completion.message is None {
            let list = list_in(message.field("tool_calls"@));
            assert(indexed(list) =~= numbered(list));
            lemma_take_all(completion.calls, numbered(list), tools);
            if let Ok(whole) = whole_delta(message) {
                assert(whole.field("content"@) == message.field("content"@));
                assert(whole.field("reasoning_content"@) == message.field("reasoning_content"@));
                assert(whole.field("refusal"@) == message.field("refusal"@));
                if message.field("tool_calls"@) is Array && message is Object {
                    assert(call_deltas(whole) == numbered(list));
                } else {
                    assert(call_deltas(whole) =~= numbered(list));
                }
            }
        }
    }
}

/// Whether choices fit, each after those before it.
pub open spec fn all_fit(completion: CompletionView, choices: Seq<JsonView>, tools: Map<Seq<char>, ToolView>) -> bool
    decreases choices.len(),
{
    choices.len() > 0 ==> {
        let before = choices.drop_last();
        &&& all_fit(completion, before, tools)
        &&& fits(completion.with_choices(before, tools).0, choices.last(), tools)
    }
}

proof fn lemma_calls_hold(completion: CompletionView, choice: JsonView, tools: Map<Seq<char>, ToolView>)
    requires
        calls_hold(completion.calls),
    ensures
        completion.with_choice(choice, tools) matches (after, Ok(_)) ==> calls_hold(after.calls),
{
    lemma_deltas(completion.calls, call_deltas(choice.field("delta"@)), tools);
    if let Ok(whole) = whole_delta(choice.field("message"@)) {
        lemma_deltas(completion.calls, call_deltas(whole), tools);
    }
}

proof fn lemma_all_fit(completion: CompletionView, choices: Seq<JsonView>, tools: Map<Seq<char>, ToolView>)
    requires
        calls_hold(completion.calls),
    ensures
        completion.with_choices(choices, tools).1 is Ok <==> all_fit(completion, choices, tools),
        completion.with_choices(choices, tools) matches (after, Ok(_)) ==> calls_hold(after.calls),
    decreases choices.len(),
{
    if choices.len() > 0 {
        let rest = choices.drop_last();
        lemma_all_fit(completion, rest, tools);
        if let (between, Ok(_)) = completion.with_choices(rest, tools) {
            choices_are_taken_in(between, choices.last(), tools);
            lemma_calls_hold(between, choices.last(), tools);
        }
    }
}

/// A chunk that reports no error is taken in exactly where its usage counts, it belongs
/// to the completion, and it has a list of choices that all fit.
pub proof fn chunks_are_taken_in(completion: CompletionView, chunk: JsonView, tools: Map<Seq<char>, ToolView>)
    requires
        calls_hold(completion.calls),
        chunk.field("error"@) is Null,
    ensures
        completion.updated(chunk, tools).1 is Ok <==> {
            let id = chunk.field("id"@);
            let named = completion.with_usage(chunk).0.identified(chunk).0;
            &&& chunk.field("usage"@) is Object ==> counts_hold(chunk.field("usage"@))
            &&& if completion.id.len() == 0 {
                text_in(id).len() > 0
            } else {
                id is Null || id == JsonView::Text(completion.id)
            }
            &&& chunk.field("choices"@) is Array
            &&& all_fit(named, list_in(chunk.field("choices"@)), tools)
        },
{
    let named = completion.with_usage(chunk).0.identified(chunk).0;
    lemma_all_fit(named, list_in(chunk.field("choices"@)), tools);
}

/// Whether a delta of choices brings content.
pub open spec fn any_content(choices: Seq<JsonView>) -> bool {
    exists|i: int| 0 <= i < choices.len() && brings_content((#[trigger] choices[i]).field("delta"@))
}

proof fn lemma_content_choice(completion: CompletionView, choice: JsonView, tools: Map<Seq<char>, ToolView>)
    ensures
        completion.with_choice(choice, tools) matches (after, Ok(_)) ==> after.has_delta_content == (
        completion.has_delta_content || brings_content(choice.field("delta"@))),
{
    let delta = choice.field("delta"@);
    assert(brings_content(delta) <==> delta_adds_content(delta));
    if !delta.has_fields() {
        assert(!delta.has("content"@) && !delta.has("reasoning_content"@));
        assert(!delta.has("refusal"@) && !delta.has("tool_calls"@));
    }
}

proof fn lemma_content_choices(
    completion: CompletionView,
    before: Seq<JsonView>,
    choices: Seq<JsonView>,
    tools: Map<Seq<char>, ToolView>,
)
    requires
        completion.has_delta_content == any_content(before),
    ensures
        completion.with_choices(choices, tools) matches (after, Ok(_)) ==> after.has_delta_content == any_content(
            before + choices,
        ),
    decreases choices.len(),
{
    if choices.len() == 0 {
        assert(before + choices =~= before);
    } else {
        let rest = choices.drop_last();
        lemma_content_choices(completion, before, rest, tools);
        if let (between, Ok(_)) = completion.with_choices(rest, tools) {
            lemma_content_choice(between, choices.last(), tools);
            let fewer = before + rest;
            let all = before + choices;
            assert(all[all.len() - 1] == choices.last());
            if any_content(fewer) {
                let i = choose|i: int|
                    0 <= i < fewer.len() && brings_content((#[trigger] fewer[i]).field("delta"@));
                assert(all[i] == fewer[i]);
            }
            if any_content(all) {
                let i = choose|i: int| 0 <= i < all.len() && brings_content((#[trigger] all[i]).field("delta"@));
                if i < fewer.len() {
                    assert(fewer[i] == all[i]);
                }
            }
        }
    }
}

/// A completion knows whether a delta has brought content.
pub proof fn content_is_noticed(chunks: Seq<JsonView>, tools: Map<Seq<char>, ToolView>)
    requires
        report_no_error(chunks),
    ensures
        run(chunks, tools) matches (completion, Ok(_)) ==> completion.has_delta_content == any_content(
            all_choices(chunks),
        ),
    decreases chunks.len(),
{
    if chunks.len() > 0 {
        let rest = chunks.drop_last();
        let chunk = chunks.last();
        lemma_no_error(chunks);
        content_is_noticed(rest, tools);
        if let (before, Ok(_)) = run(rest, tools) {
            if let (after, Ok(_)) = before.updated(chunk, tools) {
                let named = before.with_usage(chunk).0.identified(chunk).0;
                lemma_content_choices(named, all_choices(rest), list_in(chunk.field("choices"@)), tools);
            }
        }
    }
}

/// The completion with another count of its bytes.
pub open spec fn with_bytes(completion: CompletionView, bytes: usize) -> CompletionView {
    CompletionView { bytes, ..completion }
}

proof fn lemma_bytes_choices(
    completion: CompletionView,
    bytes: usize,
    choices: Seq<JsonView>,
    tools: Map<Seq<char>, ToolView>,
)
    ensures
        with_bytes(completion, bytes).with_choices(choices, tools) == (
            with_bytes(completion.with_choices(choices, tools).0, bytes),
            completion.with_choices(choices, tools).1,
        ),
    decreases choices.len(),
{
    if choices.len() > 0 {
        lemma_bytes_choices(completion, bytes, choices.drop_last(), tools);
    }
}

proof fn lemma_bytes(completion: CompletionView, bytes: usize, chunk: JsonView, tools: Map<Seq<char>, ToolView>)
    requires
        chunk.field("error"@) is Null,
    ensures
        with_bytes(completion, bytes).updated(chunk, tools) == (
            with_bytes(completion.updated(chunk, tools).0, bytes),
            completion.updated(chunk, tools).1,
        ),
{
    let named = completion.with_usage(chunk).0.identified(chunk).0;
    lemma_bytes_choices(named, bytes, list_in(chunk.field("choices"@)), tools);
}

/// The bytes of all data.
pub open spec fn data_bytes(data: Seq<Seq<char>>) -> nat
    decreases data.len(),
{
    if data.len() == 0 {
        0
    } else {
        data_bytes(data.drop_last()) + vstd::utf8::encode_utf8(data.last()).len()
    }
}

/// Whether data are these chunks, written as JSON.
pub open spec fn are_chunks(data: Seq<Seq<char>>, chunks: Seq<JsonView>) -> bool {
    &&& data.len() == chunks.len()
    &&& forall|i: int| 0 <= i < data.len() ==> (#[trigger] data[i]) != "[DONE]"@ && parsed(data[i]) == Some(chunks[i])
}

/// Data as it arrives on a stream.
pub open spec fn arriving(data: Seq<Seq<char>>) -> Seq<IncomingView> {
    data.map_values(|data: Seq<char>| IncomingView::Data(data))
}

/// A stream reports what its chunks lead to, and all of it, as long as they are at most
/// 16 MiB; and the first chunk that is refused ends it with the error.
pub proof fn streams_report_their_chunks(
    data: Seq<Seq<char>>,
    chunks: Seq<JsonView>,
    tools: Map<Seq<char>, ToolView>,
)
    requires
        are_chunks(data, chunks),
        report_no_error(chunks),
        data_bytes(data) <= 16777216,
    ensures
        ({
            let all = transcript(tools, arriving(data));
            match run(chunks, tools) {
                (completion, Ok(events)) => {
                    &&& !all.done
                    &&& all.error is None
                    &&& all.events == events
                    &&& all.completion == with_bytes(completion, data_bytes(data) as usize)
                },
                (_, Err(error)) => all.done && all.error == Some(error),
            }
        }),
    decreases data.len(),
{
    if data.len() > 0 {
        let rest = data.drop_last();
        let before = chunks.drop_last();
        let chunk = chunks.last();
        lemma_no_error(chunks);
        assert(are_chunks(rest, before)) by {
            assert forall|i: int| 0 <= i < rest.len() implies (#[trigger] rest[i]) != "[DONE]"@ && parsed(rest[i])
                == Some(before[i]) by {
                assert(data[i] == rest[i] && chunks[i] == before[i]);
            }
        }
        streams_report_their_chunks(rest, before, tools);
        assert(arriving(data).drop_last() =~= arriving(rest));
        assert(data[data.len() - 1] != "[DONE]"@ && parsed(data[data.len() - 1]) == Some(chunk));
        if let (completion, Ok(events)) = run(before, tools) {
            let bytes = data_bytes(data) as usize;
            let counted = with_bytes(completion, bytes);
            assert(with_bytes(with_bytes(completion, data_bytes(rest) as usize), bytes) == counted);
            lemma_bytes(completion, bytes, chunk, tools);
            chunks_only_add(completion, chunk, tools);
            if let (_, Ok(more)) = completion.updated(chunk, tools) {
                assert(!ends(more));
                assert(more.len() > 0 ==> !ends(more.drop_last())) by {
                    if more.len() > 0 && ends(more.drop_last()) {
                        let i = choose|i: int|
                            0 <= i < more.drop_last().len() && (#[trigger] more.drop_last()[i]) is Incomplete;
                        assert(more[i] is Incomplete);
                    }
                }
                assert(until_end(more) == more);
            }
        }
    } else {
        assert(chunks =~= Seq::empty());
        assert(arriving(data) =~= Seq::empty());
    }
}

/// Where the mark for the end follows chunks, the stream reports the end of the
/// completion that they make, after all that they lead to; or the error that keeps it
/// from ending.
pub proof fn streams_end_as_their_chunks_do(
    data: Seq<Seq<char>>,
    chunks: Seq<JsonView>,
    tools: Map<Seq<char>, ToolView>,
)
    requires
        are_chunks(data, chunks),
        report_no_error(chunks),
        data_bytes(data) <= 16777216,
        run(chunks, tools).1 is Ok,
    ensures
        ({
            let all = transcript(tools, arriving(data.push("[DONE]"@)));
            let (completion, outcome) = run(chunks, tools);
            &&& all.done
            &&& match completion.finished(tools) {
                Ok(end) => all.error is None && all.events == outcome->Ok_0 + end,
                Err(error) => all.error == Some(error) && all.events == outcome->Ok_0,
            }
        }),
{
    streams_report_their_chunks(data, chunks, tools);
    let arrivals = arriving(data.push("[DONE]"@));
    let completion = run(chunks, tools).0;
    let counted = with_bytes(completion, data_bytes(data) as usize);
    assert(arrivals.drop_last() =~= arriving(data));
    assert(counted.finished(tools) == completion.finished(tools));
    let events = run(chunks, tools).1->Ok_0;
    assert(events + Seq::<EventView>::empty() =~= events);
}

/// Where the provider gives up after chunks, the stream reports all that came and that
/// it gave up; or the error that this is refused with. Then it is done.
pub proof fn streams_end_where_the_provider_gives_up(
    data: Seq<Seq<char>>,
    chunks: Seq<JsonView>,
    last: Seq<char>,
    failure: JsonView,
    tools: Map<Seq<char>, ToolView>,
)
    requires
        are_chunks(data, chunks),
        report_no_error(chunks),
        last != "[DONE]"@,
        parsed(last) == Some(failure),
        !(failure.field("error"@) is Null),
        data_bytes(data.push(last)) <= 16777216,
        run(chunks, tools).1 is Ok,
    ensures
        ({
            let all = transcript(tools, arriving(data.push(last)));
            let (completion, outcome) = run(chunks, tools);
            &&& all.done
            &&& match completion.updated(failure, tools).1 {
                Ok(end) => all.error is None && all.events == outcome->Ok_0 + end,
                Err(error) => all.error == Some(error) && all.events == outcome->Ok_0,
            }
        }),
{
    assert(data.push(last).drop_last() =~= data);
    streams_report_their_chunks(data, chunks, tools);
    let arrivals = arriving(data.push(last));
    let completion = run(chunks, tools).0;
    let bytes = data_bytes(data.push(last)) as usize;
    let counted = with_bytes(completion, bytes);
    assert(arrivals.drop_last() =~= arriving(data));
    assert(with_bytes(with_bytes(completion, data_bytes(data) as usize), bytes) == counted);
    assert(counted.updated(failure, tools).1 == completion.updated(failure, tools).1);
    let events = run(chunks, tools).1->Ok_0;
    assert(events + Seq::<EventView>::empty() =~= events);
    if let Ok(end) = completion.updated(failure, tools).1 {
        let failed = completion.with_usage(failure).0.failed(failure, serialized(failure));
        let i = end.len() - 1;
        cut_off_completions_run_nothing(failed, tools);
        assert(end[i] is Incomplete);
        assert forall|j: int| 0 <= j < i implies !((#[trigger] end[j]) is Incomplete) by {
            assert(end.drop_last()[j] == end[j]);
        }
        lemma_until_end(end, i);
        assert(end.take(i + 1) =~= end);
    }
}

/// After the mark for the end a stream starts anew.
pub proof fn streams_start_anew(completion: CompletionView, tools: Map<Seq<char>, ToolView>)
    ensures
        reply_view(completion, tools, IncomingView::Data("[DONE]"@)).0 == run(Seq::empty(), tools).0,
{
}

} // verus!
