//! What holds of results that are sent as references to earlier ones.

use vstd::prelude::*;

use crate::history::{
    byte_count, call_arguments, call_position, earlier_result, payload, reference, stands_for,
    string_view, text_view, HistoryView, SentResultView, LARGE_RESULT,
};
use crate::json::JsonView;
use crate::laws::batches::{calls_of, lemma_position};
use crate::message::{MessageView, WireCallView};
use crate::request::opened;
use crate::tools::{alias, registered, ToolView};

verus! {

/// Whether a message makes that call.
pub open spec fn is_made(messages: Seq<MessageView>, call: WireCallView) -> bool {
    exists|i: int| 0 <= i < messages.len() && calls_of(#[trigger] messages[i]).contains(call)
}

/// Whether a message gives that result of that call, word for word.
pub open spec fn is_given(messages: Seq<MessageView>, sent: SentResultView) -> bool {
    exists|i: int|
        0 <= i < messages.len() && #[trigger] messages[i] == (MessageView::Tool {
            call_id: sent.call.id,
            content: sent.output,
        })
}

/// A history in which every result that was sent is there, with its call.
pub open spec fn is_backed(history: HistoryView) -> bool {
    &&& forall|k: int| 0 <= k < history.open.len() ==> is_made(history.messages, #[trigger] history.open[k])
    &&& forall|k: int|
        0 <= k < history.sent.len() ==> is_made(history.messages, (#[trigger] history.sent[k]).call)
            && is_given(history.messages, history.sent[k])
}

/// Whether messages say all that others say: the same results, and at least the
/// same calls.
spec fn says_all(more: Seq<MessageView>, messages: Seq<MessageView>) -> bool {
    &&& messages.len() <= more.len()
    &&& forall|i: int|
        0 <= i < messages.len() ==> {
            &&& (#[trigger] messages[i]) is Tool ==> more[i] == messages[i]
            &&& calls_of(messages[i]).is_prefix_of(calls_of(more[i]))
        }
}

proof fn lemma_says_all(more: Seq<MessageView>, messages: Seq<MessageView>)
    requires
        says_all(more, messages),
    ensures
        forall|call: WireCallView| is_made(messages, call) ==> #[trigger] is_made(more, call),
        forall|sent: SentResultView| is_given(messages, sent) ==> #[trigger] is_given(more, sent),
{
    assert forall|call: WireCallView| is_made(messages, call) implies #[trigger] is_made(more, call) by {
        let i = choose|i: int| 0 <= i < messages.len() && calls_of(#[trigger] messages[i]).contains(call);
        let calls = calls_of(messages[i]);
        let k = choose|k: int| 0 <= k < calls.len() && calls[k] == call;
        assert(calls.is_prefix_of(calls_of(more[i])));
        assert(calls_of(more[i])[k] == calls[k]);
        assert(calls_of(more[i]).contains(call));
    }
    assert forall|sent: SentResultView| is_given(messages, sent) implies #[trigger] is_given(more, sent) by {
        let given = MessageView::Tool { call_id: sent.call.id, content: sent.output };
        let i = choose|i: int| 0 <= i < messages.len() && #[trigger] messages[i] == given;
        assert(more[i] == given);
    }
}

proof fn lemma_carry(before: HistoryView, after: HistoryView)
    requires
        is_backed(before),
        says_all(after.messages, before.messages),
        after.sent == before.sent,
        after.open == before.open,
    ensures
        is_backed(after),
{
    lemma_says_all(after.messages, before.messages);
}

proof fn lemma_say(history: HistoryView, content: Seq<char>)
    requires
        history.wf(),
        is_backed(history),
    ensures
        is_backed(history.say(content)),
{
    lemma_carry(history, history.say(content));
}

proof fn lemma_hear(history: HistoryView, role: Seq<char>, content: Seq<char>)
    requires
        history.wf(),
        is_backed(history),
    ensures
        history.hear(role, content) matches Ok(after) ==> is_backed(after),
{
    if let Ok(after) = history.hear(role, content) {
        lemma_carry(history, after);
    }
}

proof fn lemma_ask(history: HistoryView, call: WireCallView)
    requires
        history.wf(),
        is_backed(history),
    ensures
        history.ask(call) matches Ok(after) ==> is_backed(after),
{
    if let Ok(after) = history.ask(call) {
        let last = after.messages.len() - 1;
        assert(says_all(after.messages, history.messages));
        lemma_says_all(after.messages, history.messages);
        assert(calls_of(after.messages[last]).last() == call);
        assert(calls_of(after.messages[last]).contains(call));
        assert(is_made(after.messages, call));
    }
}

proof fn lemma_answer(history: HistoryView, call_id: Seq<char>, output: Seq<char>, earlier: Option<Seq<char>>)
    requires
        is_backed(history),
    ensures
        history.answer_with(call_id, output, earlier) matches Ok(after) ==> is_backed(after),
{
    if let Ok(after) = history.answer_with(call_id, output, earlier) {
        lemma_position(history.open, call_id);
        let place = call_position(history.open, call_id)->Some_0;
        assert(says_all(after.messages, history.messages));
        lemma_says_all(after.messages, history.messages);
        assert(is_made(history.messages, history.open[place]));
        assert forall|k: int| 0 <= k < after.open.len() implies is_made(after.messages, #[trigger] after.open[k]) by {
            let j = if k < place {
                k
            } else {
                k + 1
            };
            assert(after.open[k] == history.open[j]);
        }
        if after.sent.len() > history.sent.len() {
            let sent = after.sent.last();
            let i = after.messages.len() - 1;
            assert(after.messages[i] == (MessageView::Tool {
                call_id: sent.call.id,
                content: sent.output,
            }));
            assert(is_given(after.messages, sent));
        }
        assert forall|k: int| 0 <= k < after.sent.len() implies is_made(
            after.messages,
            (#[trigger] after.sent[k]).call,
        ) && is_given(after.messages, after.sent[k]) by {
            if k < history.sent.len() {
                assert(after.sent[k] == history.sent[k]);
            }
        }
    }
}

/// Reading an item leaves a history in which every result that was sent is there.
pub proof fn reading_keeps_results_backed(history: HistoryView, item: JsonView)
    requires
        history.wf(),
        is_backed(history),
    ensures
        history.read(item) matches Ok(after) ==> after.wf() && is_backed(after),
{
    if let Ok(after) = history.read(item) {
        let kind = item.field("type"@);
        if kind == JsonView::Text("reasoning"@) {
        } else if kind == JsonView::Text("message"@) || kind == JsonView::Text("agent_message"@) {
            let content = text_view(item.field("content"@))->Ok_0;
            lemma_say(history, content);
            lemma_hear(history, "user"@, content);
            if let Ok(role) = string_view(item, "role"@) {
                lemma_hear(history, role, content);
            }
        } else if kind == JsonView::Text("function_call"@) || kind == JsonView::Text("custom_tool_call"@) {
            let custom = kind == JsonView::Text("custom_tool_call"@);
            let name = string_view(item, "name"@)->Ok_0;
            let tool = ToolView { name, namespace: item.field("namespace"@).text(), custom };
            let entered = HistoryView { table: registered(history.table, tool), ..history };
            assert(is_backed(entered));
            let call = WireCallView {
                id: string_view(item, "call_id"@)->Ok_0,
                name: alias(tool),
                arguments: call_arguments(item, custom)->Ok_0,
            };
            lemma_ask(entered, call);
        } else if kind == JsonView::Text("function_call_output"@) || kind == JsonView::Text(
            "custom_tool_call_output"@,
        ) {
            let id = string_view(item, "call_id"@)->Ok_0;
            let output = text_view(item.field("output"@))->Ok_0;
            let earlier = match call_position(history.open, id) {
                None => None,
                Some(i) => earlier_result(history.sent, history.open[i], output),
            };
            lemma_position(history.open, id);
            lemma_answer(history, id, output, earlier);
        }
    }
}

/// Reading on takes no call and no result back.
pub proof fn calls_and_results_stay(history: HistoryView, items: Seq<JsonView>)
    requires
        history.wf(),
    ensures
        history.read_all(items) matches Ok(after) ==> {
            &&& after.wf()
            &&& forall|call: WireCallView|
                is_made(history.messages, call) ==> #[trigger] is_made(after.messages, call)
            &&& forall|sent: SentResultView|
                is_given(history.messages, sent) ==> #[trigger] is_given(after.messages, sent)
        },
    decreases items.len(),
{
    if items.len() > 0 {
        calls_and_results_stay(history, items.drop_last());
        if let Ok(between) = history.read_all(items.drop_last()) {
            if let Ok(after) = between.read(items.last()) {
                lemma_read_says_all(between, items.last());
                lemma_says_all(after.messages, between.messages);
                assert forall|call: WireCallView| is_made(history.messages, call) implies #[trigger] is_made(
                    after.messages,
                    call,
                ) by {
                    assert(is_made(between.messages, call));
                }
                assert forall|sent: SentResultView| is_given(history.messages, sent) implies #[trigger] is_given(
                    after.messages,
                    sent,
                ) by {
                    assert(is_given(between.messages, sent));
                }
            }
        }
    }
}

proof fn lemma_read_says_all(history: HistoryView, item: JsonView)
    requires
        history.wf(),
    ensures
        history.read(item) matches Ok(after) ==> after.wf() && says_all(after.messages, history.messages),
{
    if let Ok(after) = history.read(item) {
        let kind = item.field("type"@);
        if kind == JsonView::Text("reasoning"@) {
        } else if kind == JsonView::Text("message"@) || kind == JsonView::Text("agent_message"@) {
            let content = text_view(item.field("content"@))->Ok_0;
            assert(says_all(history.say(content).messages, history.messages));
        } else if kind == JsonView::Text("function_call"@) || kind == JsonView::Text("custom_tool_call"@) {
        } else if kind == JsonView::Text("function_call_output"@) || kind == JsonView::Text(
            "custom_tool_call_output"@,
        ) {
            lemma_position(history.open, string_view(item, "call_id"@)->Ok_0);
        }
        assert(says_all(after.messages, history.messages));
    }
}

proof fn lemma_read_all(history: HistoryView, items: Seq<JsonView>)
    requires
        history.wf(),
        is_backed(history),
    ensures
        history.read_all(items) matches Ok(after) ==> after.wf() && is_backed(after),
    decreases items.len(),
{
    if items.len() > 0 {
        lemma_read_all(history, items.drop_last());
        if let Ok(between) = history.read_all(items.drop_last()) {
            reading_keeps_results_backed(between, items.last());
        }
    }
}

/// In every history that a request can lead to, every result that was sent is there.
pub proof fn results_stay_backed(
    request: JsonView,
    table: Map<Seq<char>, ToolView>,
    items: Seq<JsonView>,
)
    ensures
        opened(request, table).read_all(items) matches Ok(history) ==> is_backed(history),
{
    lemma_read_all(opened(request, table), items);
}

/// The result that stands for another one is one that was sent.
pub proof fn lemma_earlier(sent: Seq<SentResultView>, call: WireCallView, output: Seq<char>)
    ensures
        match earlier_result(sent, call, output) {
            Some(id) => exists|k: int|
                0 <= k < sent.len() && stands_for(#[trigger] sent[k], call, output) && sent[k].call.id == id,
            None => forall|k: int| 0 <= k < sent.len() ==> !stands_for(#[trigger] sent[k], call, output),
        },
    decreases sent.len(),
{
    if sent.len() > 0 {
        let before = sent.drop_last();
        lemma_earlier(before, call, output);
        if let Some(id) = earlier_result(before, call, output) {
            let k = choose|k: int|
                0 <= k < before.len() && stands_for(#[trigger] before[k], call, output) && before[k].call.id
                    == id;
            assert(sent[k] == before[k]);
        } else {
            assert forall|k: int|
                0 <= k < sent.len() && earlier_result(sent, call, output) is None implies !stands_for(
                #[trigger] sent[k],
                call,
                output,
            ) by {
                if k < before.len() {
                    assert(sent[k] == before[k]);
                }
            }
            if stands_for(sent.last(), call, output) {
                assert(sent[sent.len() - 1] == sent.last());
            }
        }
    }
}

/// A result is sent word for word, or named. It is named only where it is large and
/// an earlier message gives the same output of the same call word for word, and only
/// where the name takes fewer bytes in the payload.
pub proof fn results_are_given_or_named(history: HistoryView, call_id: Seq<char>, output: Seq<char>)
    requires
        history.wf(),
        is_backed(history),
    ensures
        history.answer(call_id, output) matches Ok(after) ==> {
            let call = history.open[call_position(history.open, call_id)->Some_0];
            &&& after.messages.len() == history.messages.len() + 1
            &&& after.messages.drop_last() == history.messages
            &&& after.messages.last() matches MessageView::Tool { call_id: answered, content }
            &&& answered == call_id
            &&& content == output || {
                &&& byte_count(output) >= LARGE_RESULT
                &&& payload(content) < payload(output)
                &&& exists|same: WireCallView| #[trigger]
                    is_made(history.messages, same) && same.name == call.name && same.arguments
                        == call.arguments && content == reference(same.id) && is_given(
                        history.messages,
                        SentResultView { call: same, output },
                    )
            }
        },
{
    if let Ok(after) = history.answer(call_id, output) {
        let call = history.open[call_position(history.open, call_id)->Some_0];
        lemma_earlier(history.sent, call, output);
        assert(after.messages.drop_last() =~= history.messages);
        let content = after.messages.last()->Tool_content;
        if content != output {
            let id = earlier_result(history.sent, call, output)->Some_0;
            let k = choose|k: int|
                0 <= k < history.sent.len() && stands_for(#[trigger] history.sent[k], call, output)
                    && history.sent[k].call.id == id;
            let same = history.sent[k].call;
            assert(is_made(history.messages, same));
            assert(history.sent[k] == (SentResultView { call: same, output }));
        }
    }
}

/// A large result that a message gave before, of the same call, is named and not
/// repeated, where the name takes fewer bytes in the payload. A small one is always
/// repeated.
pub proof fn large_repeats_are_named(history: HistoryView, call_id: Seq<char>, output: Seq<char>, k: int)
    requires
        0 <= k < history.sent.len(),
        call_position(history.open, call_id) is Some,
        stands_for(
            history.sent[k],
            history.open[call_position(history.open, call_id)->Some_0],
            output,
        ),
    ensures
        history.answer(call_id, output) matches Ok(after) && after.messages.last()
            matches MessageView::Tool { content, .. } && if byte_count(output) < LARGE_RESULT {
            content == output
        } else {
            exists|j: int|
                0 <= j < history.sent.len() && content == reference((#[trigger] history.sent[j]).call.id)
        },
{
    let call = history.open[call_position(history.open, call_id)->Some_0];
    lemma_earlier(history.sent, call, output);
}

} // verus!
