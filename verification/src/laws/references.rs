//! Which results a body gives word for word and which it names, told from the history.

use vstd::prelude::*;

use crate::history::{
    call_arguments, call_position, earlier_result, stands_for, string_view, text_view, HistoryView,
    SentResultView,
};
use crate::json::JsonView;
use crate::laws::batches::{call_ids, is_batched, lemma_position, lemma_read_batched};
use crate::laws::chunks::{list_in, text_in};
use crate::laws::conversation::{
    is_called, is_large, is_result, lemma_message_json, lemma_roles, lemma_words, tool_called, words,
};
use crate::laws::history::{bodies_carry_their_content, lemma_kinds};
use crate::laws::repeats::lemma_earlier;
use crate::message::{assistant, MessageView, WireCallView};
use crate::request::{encode_view, messages_json, messages_view, opened};
use crate::tools::alias;
use crate::wire::serialized;

verus! {

/// The arguments of a call as they are sent.
pub open spec fn arguments_sent(item: JsonView) -> Seq<char> {
    if tool_called(item).custom {
        serialized(JsonView::object().with("input"@, item.field("input"@)))
    } else {
        text_in(item.field("arguments"@))
    }
}

/// The last call of an ID.
pub open spec fn last_call(items: Seq<JsonView>, id: Seq<char>) -> Option<JsonView>
    decreases items.len(),
{
    if items.len() == 0 {
        None
    } else if is_called(items.last()) && items.last().field("call_id"@) == JsonView::Text(id) {
        Some(items.last())
    } else {
        last_call(items.drop_last(), id)
    }
}

/// The ID of the call that an item answers.
pub open spec fn answered(item: JsonView) -> Seq<char> {
    text_in(item.field("call_id"@))
}

/// The call that the result at a place answers.
pub open spec fn call_behind(items: Seq<JsonView>, place: int) -> Option<JsonView> {
    last_call(items.take(place), answered(items[place]))
}

/// Where the results stand among items.
pub open spec fn result_places(items: Seq<JsonView>) -> Seq<int>
    decreases items.len(),
{
    if items.len() == 0 {
        Seq::empty()
    } else if is_result(items.last()) {
        result_places(items.drop_last()).push(items.len() - 1)
    } else {
        result_places(items.drop_last())
    }
}

/// What the results in a body say, in order.
pub open spec fn contents_in(messages: Seq<JsonView>) -> Seq<Seq<char>>
    decreases messages.len(),
{
    if messages.len() == 0 {
        Seq::empty()
    } else if messages.last().field("role"@) == JsonView::Text("tool"@) {
        contents_in(messages.drop_last()).push(text_in(messages.last().field("content"@)))
    } else {
        contents_in(messages.drop_last())
    }
}

/// What names the result of an earlier call.
pub open spec fn name_of(id: Seq<char>) -> Seq<char> {
    "[Identical to the result of the same call with tool_call_id="@ + id + "; not repeated]"@
}

/// Whether the name of a result takes fewer bytes in the payload than a text.
pub open spec fn is_shorter(id: Seq<char>, text: Seq<char>) -> bool {
    vstd::utf8::encode_utf8(serialized(JsonView::Text(name_of(id)))).len() < vstd::utf8::encode_utf8(
        serialized(JsonView::Text(text)),
    ).len()
}

/// Whether the result at a place was there before: of the same tool, called with the
/// same arguments, and with the same words.
pub open spec fn was_there(items: Seq<JsonView>, earlier: int, place: int) -> bool {
    &&& words(items[earlier].field("output"@)) == words(items[place].field("output"@))
    &&& call_behind(items, earlier) matches Some(first)
    &&& call_behind(items, place) matches Some(second)
    &&& alias(tool_called(first)) == alias(tool_called(second))
    &&& arguments_sent(first) == arguments_sent(second)
}

/// Whether a result that was there before can stand for the result at a place: that one
/// is large, and the name is shorter.
pub open spec fn can_stand(items: Seq<JsonView>, earlier: int, place: int) -> bool {
    let text = words(items[place].field("output"@));
    &&& was_there(items, earlier, place)
    &&& is_large(text)
    &&& is_shorter(answered(items[earlier]), text)
}

/// Whether a result is sent as it should be. Where one before it can stand for it, it
/// is named by one that can and that is there word for word; else it is sent word for
/// word itself.
pub open spec fn is_sent_right(items: Seq<JsonView>, contents: Seq<Seq<char>>, k: int) -> bool {
    let places = result_places(items);
    let text = words(items[places[k]].field("output"@));
    if exists|j: int| 0 <= j < k && can_stand(items, #[trigger] places[j], places[k]) {
        exists|m: int| #[trigger] is_named_by(items, contents, k, m)
    } else {
        contents[k] == text
    }
}

/// Whether a result is named by one before it that is there word for word.
pub open spec fn is_named_by(items: Seq<JsonView>, contents: Seq<Seq<char>>, k: int, m: int) -> bool {
    let places = result_places(items);
    &&& 0 <= m < k
    &&& can_stand(items, places[m], places[k])
    &&& contents[m] == words(items[places[m]].field("output"@))
    &&& contents[k] == name_of(answered(items[places[m]]))
}

/// What the results among messages say.
spec fn contents(messages: Seq<MessageView>) -> Seq<Seq<char>>
    decreases messages.len(),
{
    if messages.len() == 0 {
        Seq::empty()
    } else {
        match messages.last() {
            MessageView::Tool { content, .. } => contents(messages.drop_last()).push(content),
            _ => contents(messages.drop_last()),
        }
    }
}

proof fn lemma_push(messages: Seq<MessageView>, message: MessageView)
    ensures
        contents(messages.push(message)) == match message {
            MessageView::Tool { content, .. } => contents(messages).push(content),
            _ => contents(messages),
        },
{
    assert(messages.push(message).drop_last() =~= messages);
}

proof fn lemma_update(messages: Seq<MessageView>, i: int, message: MessageView)
    requires
        0 <= i < messages.len(),
        messages[i] is Assistant,
        message is Assistant,
    ensures
        contents(messages.update(i, message)) == contents(messages),
    decreases messages.len(),
{
    let after = messages.update(i, message);
    if i == messages.len() - 1 {
        assert(after.drop_last() =~= messages.drop_last());
    } else {
        lemma_update(messages.drop_last(), i, message);
        assert(after.drop_last() =~= messages.drop_last().update(i, message));
    }
}

/// Whether a call in a body is the call of an item.
spec fn is_call_of(call: WireCallView, item: JsonView) -> bool {
    &&& call.name == alias(tool_called(item))
    &&& call.arguments == arguments_sent(item)
}

/// Whether a result that was sent stands among items, word for word.
spec fn is_at(
    items: Seq<JsonView>,
    contents: Seq<Seq<char>>,
    call: WireCallView,
    output: Seq<char>,
    k: int,
) -> bool {
    let places = result_places(items);
    &&& 0 <= k < places.len()
    &&& answered(items[places[k]]) == call.id
    &&& words(items[places[k]].field("output"@)) == output
    &&& call_behind(items, places[k]) matches Some(item)
    &&& is_call_of(call, item)
    &&& contents[k] == output
}

/// Whether a result that was sent stands somewhere among items, word for word.
spec fn is_there(items: Seq<JsonView>, contents: Seq<Seq<char>>, sent: SentResultView) -> bool {
    exists|k: int| #[trigger] is_at(items, contents, sent.call, sent.output, k)
}

/// Whether a result that was sent can stand for the result at a place, or is it.
spec fn is_covered(history: HistoryView, items: Seq<JsonView>, place: int, s: int) -> bool {
    let sent = history.sent[s];
    &&& 0 <= s < history.sent.len()
    &&& sent.output == words(items[place].field("output"@))
    &&& call_behind(items, place) matches Some(item)
    &&& is_call_of(sent.call, item)
    &&& sent.call.id == answered(items[place]) || is_shorter(sent.call.id, sent.output)
}

/// Whether a history is what items made it.
spec fn is_read(history: HistoryView, items: Seq<JsonView>) -> bool {
    let places = result_places(items);
    let given = contents(history.messages);
    &&& is_batched(history)
    &&& forall|o: int|
        0 <= o < history.open.len() ==> (last_call(items, (#[trigger] history.open[o]).id) matches Some(item)
            && is_call_of(history.open[o], item))
    &&& given.len() == places.len()
    &&& forall|k: int| 0 <= k < places.len() ==> 0 <= #[trigger] places[k] < items.len()
    &&& forall|k: int| 0 <= k < places.len() ==> #[trigger] is_sent_right(items, given, k)
    &&& forall|s: int|
        0 <= s < history.sent.len() ==> is_there(items, given, #[trigger] history.sent[s])
    &&& forall|k: int|
        0 <= k < places.len() && is_large(words(items[#[trigger] places[k]].field("output"@))) ==> exists|s: int|
            #[trigger] is_covered(history, items, places[k], s)
}

/// What is said of results stays true as items follow.
proof fn lemma_stays(items: Seq<JsonView>, item: JsonView, given: Seq<Seq<char>>, more: Seq<Seq<char>>, k: int)
    requires
        0 <= k < result_places(items).len(),
        given.len() == result_places(items).len(),
        forall|i: int| 0 <= i < result_places(items).len() ==> 0 <= #[trigger] result_places(items)[i] < items.len(),
        given.is_prefix_of(more),
    ensures
        result_places(items.push(item))[k] == result_places(items)[k],
        is_sent_right(items, given, k) ==> is_sent_right(items.push(item), more, k),
{
    let all = items.push(item);
    let places = result_places(items);
    let after = result_places(all);
    assert(all.drop_last() =~= items);
    assert forall|i: int| 0 <= i < places.len() implies after[i] == #[trigger] places[i] && more[i] == given[i]
        && call_behind(all, places[i]) == call_behind(items, places[i]) && all[places[i]] == items[places[i]] by {
        assert(all.take(places[i]) =~= items.take(places[i]));
        assert(more.take(given.len() as int) =~= given);
        assert(more.take(given.len() as int)[i] == more[i]);
    }
    assert forall|j: int| 0 <= j < places.len() implies can_stand(all, #[trigger] after[j], after[k]) == can_stand(
        items,
        places[j],
        places[k],
    ) by {
        assert(after[j] == places[j] && after[k] == places[k]);
    }
    if is_sent_right(items, given, k) {
        if exists|j: int| 0 <= j < k && can_stand(items, #[trigger] places[j], places[k]) {
            let m = choose|m: int| #[trigger] is_named_by(items, given, k, m);
            assert(after[m] == places[m] && after[k] == places[k]);
            assert(is_named_by(all, more, k, m));
        } else {
            assert forall|j: int| 0 <= j < k implies !can_stand(all, #[trigger] after[j], after[k]) by {
                assert(!can_stand(items, places[j], places[k]));
            }
            assert(after[k] == places[k]);
        }
    }
}

/// An item that is no result, and leaves the results alone.
proof fn lemma_other(before: HistoryView, after: HistoryView, items: Seq<JsonView>, item: JsonView)
    requires
        is_read(before, items),
        is_batched(after),
        !is_result(item),
        contents(after.messages) == contents(before.messages),
        after.sent == before.sent,
        forall|o: int|
            0 <= o < after.open.len() ==> (last_call(items.push(item), (#[trigger] after.open[o]).id) matches Some(
                call,
            ) && is_call_of(after.open[o], call)),
    ensures
        is_read(after, items.push(item)),
{
    let all = items.push(item);
    let places = result_places(items);
    let given = contents(before.messages);
    assert(all.drop_last() =~= items);
    assert(result_places(all) == places);
    assert(given.take(given.len() as int) =~= given);
    assert(given.is_prefix_of(given));
    assert forall|k: int| 0 <= k < places.len() implies #[trigger] is_sent_right(all, given, k) by {
        assert(is_sent_right(items, given, k));
        lemma_stays(items, item, given, given, k);
    }
    assert forall|s: int| 0 <= s < after.sent.len() implies is_there(all, given, #[trigger] after.sent[s]) by {
        assert(is_there(items, given, before.sent[s]));
        let k = choose|k: int| #[trigger] is_at(items, given, before.sent[s].call, before.sent[s].output, k);
        assert(all.take(places[k]) =~= items.take(places[k]));
        assert(is_at(all, given, after.sent[s].call, after.sent[s].output, k));
    }
    assert forall|k: int|
        0 <= k < places.len() && is_large(words(all[#[trigger] places[k]].field("output"@))) implies exists|s: int|
        #[trigger] is_covered(after, all, places[k], s) by {
        assert(all[places[k]] == items[places[k]]);
        let s = choose|s: int| #[trigger] is_covered(before, items, places[k], s);
        assert(all.take(places[k]) =~= items.take(places[k]));
        assert(is_covered(after, all, places[k], s));
    }
}

proof fn lemma_last_call(items: Seq<JsonView>, item: JsonView, id: Seq<char>)
    ensures
        last_call(items.push(item), id) == if is_called(item) && item.field("call_id"@) == JsonView::Text(id) {
            Some(item)
        } else {
            last_call(items, id)
        },
{
    assert(items.push(item).drop_last() =~= items);
}

proof fn lemma_say(history: HistoryView, content: Seq<char>)
    requires
        is_batched(history),
    ensures
        contents(history.say(content).messages) == contents(history.messages),
{
    let after = history.say(content);
    if history.open.len() > 0 {
        let message = after.messages[history.batch];
        assert(after.messages =~= history.messages.update(history.batch, message));
        lemma_update(history.messages, history.batch, message);
    } else {
        lemma_push(history.messages, after.messages.last());
        assert(after.messages =~= history.messages.push(after.messages.last()));
    }
}

proof fn lemma_hear(history: HistoryView, role: Seq<char>, content: Seq<char>)
    requires
        is_batched(history),
    ensures
        history.hear(role, content) matches Ok(after) ==> contents(after.messages) == contents(history.messages),
{
    if let Ok(after) = history.hear(role, content) {
        let message = after.messages.last();
        let said = history.say(Seq::empty());
        lemma_say(history, Seq::empty());
        lemma_push(history.messages, message);
        lemma_push(said.messages, message);
        if role == "user"@ && history.reasoning.len() > 0 {
            assert(after.messages =~= said.messages.push(message));
        } else {
            assert(after.messages =~= history.messages.push(message));
        }
    }
}

proof fn lemma_ask(history: HistoryView, call: WireCallView)
    requires
        is_batched(history),
    ensures
        history.ask(call) matches Ok(after) ==> contents(after.messages) == contents(history.messages),
{
    if let Ok(after) = history.ask(call) {
        let blank = assistant(Seq::empty());
        lemma_push(history.messages, blank);
        let messages = if history.assistant_last() {
            history.messages
        } else {
            history.messages.push(blank)
        };
        let last = messages.len() - 1;
        lemma_update(messages, last, after.messages[last]);
        assert(after.messages =~= messages.update(last, after.messages[last]));
    }
}

proof fn lemma_called(history: HistoryView, items: Seq<JsonView>, item: JsonView)
    requires
        is_read(history, items),
        is_called(item),
    ensures
        history.read(item) matches Ok(after) ==> is_read(after, items.push(item)),
{
    lemma_kinds();
    lemma_read_batched(history, item);
    if let Ok(after) = history.read(item) {
        let id = string_view(item, "call_id"@)->Ok_0;
        let tool = tool_called(item);
        let call = WireCallView {
            id,
            name: alias(tool),
            arguments: call_arguments(item, tool.custom)->Ok_0,
        };
        let entered = HistoryView { table: after.table, ..history };
        assert(is_batched(entered));
        assert(entered.ask(call) == history.read(item));
        lemma_ask(entered, call);
        lemma_position(history.open, id);
        assert(after.open == history.open.push(call));
        assert forall|o: int| 0 <= o < after.open.len() implies (last_call(
            items.push(item),
            (#[trigger] after.open[o]).id,
        ) matches Some(made) && is_call_of(after.open[o], made)) by {
            lemma_last_call(items, item, after.open[o].id);
            if o < history.open.len() {
                assert(after.open[o] == history.open[o]);
                assert(call_ids(history.open)[o] == history.open[o].id);
            }
        }
        lemma_other(history, after, items, item);
    }
}

proof fn lemma_result(history: HistoryView, items: Seq<JsonView>, item: JsonView)
    requires
        is_read(history, items),
        is_result(item),
    ensures
        history.read(item) matches Ok(after) ==> is_read(after, items.push(item)),
{
    lemma_kinds();
    lemma_read_batched(history, item);
    lemma_words(item.field("output"@));
    if let Ok(after) = history.read(item) {
        let id = string_view(item, "call_id"@)->Ok_0;
        let output = words(item.field("output"@));
        let i = call_position(history.open, id)->Some_0;
        let call = history.open[i];
        let all = items.push(item);
        let before = result_places(items);
        let places = result_places(all);
        let given = contents(history.messages);
        let more = contents(after.messages);
        let last = before.len() as int;
        let message = after.messages.last();
        lemma_position(history.open, id);
        assert(call.id == id);
        assert(after.messages =~= history.messages.push(message));
        lemma_push(history.messages, message);
        assert(all.drop_last() =~= items);
        assert(places == before.push(items.len() as int));
        assert(more == given.push(message->Tool_content));
        assert(all.take(items.len() as int) =~= items);
        assert(all[items.len() as int] == item);
        let made = last_call(items, id)->Some_0;
        assert(call_behind(all, places[last]) == Some(made));
        assert(is_call_of(call, made));
        assert forall|k: int| 0 <= k < before.len() implies places[k] == #[trigger] before[k] && more[k] == given[k]
            && all[before[k]] == items[before[k]] && call_behind(all, before[k]) == call_behind(items, before[k]) by {
            assert(all.take(before[k]) =~= items.take(before[k]));
        }
        assert forall|o: int| 0 <= o < after.open.len() implies (last_call(all, (
        #[trigger] after.open[o]).id) matches Some(called) && is_call_of(after.open[o], called)) by {
            lemma_last_call(items, item, after.open[o].id);
            let p = if o < i {
                o
            } else {
                o + 1
            };
            assert(after.open[o] == history.open[p]);
        }
        lemma_earlier(history.sent, call, output);
        let earlier = earlier_result(history.sent, call, output);
        // What was sent is still there, and this result with it, where it is sent.
        assert forall|s: int| 0 <= s < history.sent.len() implies is_there(all, more, #[trigger] history.sent[s]) by {
            assert(is_there(items, given, history.sent[s]));
            let k = choose|k: int| #[trigger] is_at(items, given, history.sent[s].call, history.sent[s].output, k);
            assert(places[k] == before[k]);
            assert(is_at(all, more, history.sent[s].call, history.sent[s].output, k));
        }
        if is_large(output) && earlier is None {
            let sent = SentResultView { call, output };
            assert(after.sent == history.sent.push(sent));
            assert(is_at(all, more, sent.call, sent.output, last));
            assert(is_there(all, more, sent));
            assert(is_covered(after, all, places[last], history.sent.len() as int));
        }
        assert forall|s: int| 0 <= s < after.sent.len() implies is_there(all, more, #[trigger] after.sent[s]) by {
            if s < history.sent.len() {
                assert(after.sent[s] == history.sent[s]);
            }
        }
        // This result is sent as it should be.
        if is_large(output) && earlier is Some {
            let s = choose|s: int|
                0 <= s < history.sent.len() && stands_for(#[trigger] history.sent[s], call, output)
                    && history.sent[s].call.id == earlier->Some_0;
            assert(is_there(items, given, history.sent[s]));
            let m = choose|m: int| #[trigger] is_at(items, given, history.sent[s].call, history.sent[s].output, m);
            assert(places[m] == before[m]);
            assert(can_stand(all, places[m], places[last]));
            assert(is_named_by(all, more, last, m));
            assert(is_covered(after, all, places[last], s));
        } else {
            assert forall|j: int| 0 <= j < last implies !can_stand(all, #[trigger] places[j], places[last]) by {
                assert(places[j] == before[j]);
                if can_stand(all, places[j], places[last]) {
                    assert(is_large(words(items[before[j]].field("output"@))));
                    let s = choose|s: int| #[trigger] is_covered(history, items, before[j], s);
                    assert(stands_for(history.sent[s], call, output));
                }
            }
        }
        assert(is_sent_right(all, more, last));
        assert(given.is_prefix_of(more)) by {
            assert(more.take(given.len() as int) =~= given);
            assert(more.subrange(0, given.len() as int) =~= given);
        }
        assert forall|k: int| 0 <= k < places.len() implies #[trigger] is_sent_right(all, more, k) by {
            if k < last {
                assert(is_sent_right(items, given, k));
                lemma_stays(items, item, given, more, k);
            }
        }
        assert forall|k: int|
            0 <= k < places.len() && is_large(words(all[#[trigger] places[k]].field("output"@))) implies exists|s: int|
            #[trigger] is_covered(after, all, places[k], s) by {
            if k < last {
                assert(places[k] == before[k]);
                let s = choose|s: int| #[trigger] is_covered(history, items, before[k], s);
                assert(after.sent[s] == history.sent[s]);
                assert(is_covered(after, all, places[k], s));
            }
        }
    }
}

proof fn lemma_read(history: HistoryView, items: Seq<JsonView>, item: JsonView)
    requires
        is_read(history, items),
    ensures
        history.read(item) matches Ok(after) ==> is_read(after, items.push(item)),
{
    lemma_kinds();
    lemma_read_batched(history, item);
    if is_called(item) {
        lemma_called(history, items, item);
    } else if is_result(item) {
        lemma_result(history, items, item);
    } else if let Ok(after) = history.read(item) {
        let kind = item.field("type"@);
        if kind == JsonView::Text("message"@) || kind == JsonView::Text("agent_message"@) {
            let content = text_view(item.field("content"@))->Ok_0;
            lemma_say(history, content);
            lemma_hear(history, "user"@, content);
            if let Ok(role) = string_view(item, "role"@) {
                lemma_hear(history, role, content);
            }
        }
        assert(after.open == history.open);
        assert(after.sent == history.sent);
        assert forall|o: int| 0 <= o < after.open.len() implies (last_call(
            items.push(item),
            (#[trigger] after.open[o]).id,
        ) matches Some(made) && is_call_of(after.open[o], made)) by {
            lemma_last_call(items, item, after.open[o].id);
            assert(history.open[o] == after.open[o]);
        }
        lemma_other(history, after, items, item);
    }
}

proof fn lemma_read_all(history: HistoryView, items: Seq<JsonView>)
    requires
        is_read(history, Seq::empty()),
    ensures
        history.read_all(items) matches Ok(after) ==> is_read(after, items),
    decreases items.len(),
{
    if items.len() == 0 {
        assert(items =~= Seq::empty());
    } else {
        lemma_read_all(history, items.drop_last());
        if let Ok(between) = history.read_all(items.drop_last()) {
            lemma_read(between, items.drop_last(), items.last());
            assert(items.drop_last().push(items.last()) =~= items);
        }
    }
}

proof fn lemma_in_body(messages: Seq<MessageView>)
    requires
        forall|i: int|
            0 <= i < messages.len() ==> ((#[trigger] messages[i]) matches MessageView::Plain { role, .. } ==> role
                != "tool"@),
    ensures
        contents_in(messages_json(messages)) == contents(messages),
    decreases messages.len(),
{
    if messages.len() > 0 {
        let rest = messages.drop_last();
        let message = messages.last();
        assert forall|i: int| 0 <= i < rest.len() implies ((
        #[trigger] rest[i]) matches MessageView::Plain { role, .. } ==> role != "tool"@) by {
            assert(rest[i] == messages[i]);
        }
        assert(messages[messages.len() - 1] == message);
        lemma_in_body(rest);
        lemma_message_json(message);
        assert(messages_json(messages).drop_last() =~= messages_json(rest));
        assert(messages_json(messages).last() == message.json());
        reveal_strlit("assistant");
        reveal_strlit("tool");
        assert("assistant"@.len() == 9 && "tool"@.len() == 4);
    }
}

/// Every result is sent as it should be: word for word, unless it is large and one
/// before it, of the same tool with the same arguments and with the same words, can be
/// named in fewer bytes; then it is named, by one that is there word for word.
pub proof fn repeated_results_are_named(request: JsonView)
    ensures
        encode_view(request) matches Ok((body, _)) ==> {
            let items = list_in(request.field("input"@));
            let given = contents_in(list_in(body.field("messages"@)));
            &&& given.len() == result_places(items).len()
            &&& forall|k: int| 0 <= k < given.len() ==> #[trigger] is_sent_right(items, given, k)
        },
{
    if let Ok((body, tools)) = encode_view(request) {
        let items = request.field("input"@)->Array_0;
        let history = opened(request, tools);
        let messages = messages_view(request, tools)->Ok_0;
        let none = Seq::<MessageView>::empty();
        bodies_carry_their_content(request);
        assert(contents(none) == Seq::<Seq<char>>::empty());
        if history.messages.len() > 0 {
            assert(history.messages.drop_last() =~= none);
        } else {
            assert(history.messages =~= none);
        }
        assert(is_batched(history));
        assert(is_read(history, Seq::empty()));
        lemma_read_all(history, items);
        lemma_roles(request);
        lemma_in_body(messages);
    }
}

} // verus!
