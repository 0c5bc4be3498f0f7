//! What holds of everything that a stream reports.

use vstd::prelude::*;

use crate::completion::{blank_completion, message_item, CompletionView};
use crate::error::ErrorView;
use crate::event::EventView;
use crate::history::byte_count;
use crate::laws::chunks::{
    is_told, is_told_so_far, lemma_chunk_told, lemma_end_opens_nothing, lemma_told_on, opens_message,
};
use crate::laws::completion::{
    chunks_only_add, complete_completions_run_advertised_tools, cut_off_completions_run_nothing,
    hands_over_call, is_terminal, lemma_no_text, lemma_streamed_text, only_progress,
    provider_errors_are_reported, reports_no_text, streamed_text,
};
use crate::stream::{ends, lemma_until_end, reply_view, saturated, until_end, IncomingView, MAX_BYTES};
use crate::tools::ToolView;
use crate::wire::{parsed, serialized};

verus! {

/// Whether no event comes after the one that says that the completion is over.
pub open spec fn ends_properly(events: Seq<EventView>) -> bool {
    forall|i: int| 0 <= i < events.len() - 1 ==> !is_terminal(#[trigger] events[i])
}

/// Where only the last event can end a stream, all of them are reported.
proof fn lemma_all_reported(events: Seq<EventView>)
    requires
        events.len() > 0 ==> only_progress(events.drop_last()),
    ensures
        until_end(events) == events,
        ends(events) == (events.len() > 0 && events.last() is Incomplete),
{
    if events.len() > 0 {
        let before = events.drop_last();
        assert forall|i: int| 0 <= i < before.len() implies !((#[trigger] events[i]) is Incomplete) by {
            assert(before[i] == events[i]);
            assert(!is_terminal(before[i]));
        }
        assert forall|i: int| 0 <= i < before.len() implies !((#[trigger] before[i]) is Incomplete) by {
            assert(!is_terminal(before[i]));
        }
        if events.last() is Incomplete {
            let last = events.len() - 1;
            assert(events[last] is Incomplete);
            lemma_until_end(events, last);
            assert(events.take(last + 1) =~= events);
        }
    }
}

proof fn lemma_progress(events: Seq<EventView>)
    requires
        only_progress(events),
    ensures
        events.len() > 0 ==> only_progress(events.drop_last()),
{
    if events.len() > 0 {
        let before = events.drop_last();
        assert forall|i: int| 0 <= i < before.len() implies !hands_over_call(#[trigger] before[i])
            && !is_terminal(before[i]) by {
            assert(before[i] == events[i]);
        }
    }
}

/// What one reply can be. It is an error, and then nothing else and the end of the
/// stream. Or it is a step forward, which hands over no call. Or it ends the stream
/// with the event that says so.
///
/// Calls are handed over, and the completion is called complete, only on the mark
/// that ends it.
pub proof fn replies_end_properly(
    completion: CompletionView,
    tools: Map<Seq<char>, ToolView>,
    incoming: IncomingView,
)
    ensures
        ({
            let (_, reply) = reply_view(completion, tools, incoming);
            &&& reply.error is Some ==> reply.done && reply.events.len() == 0
            &&& ends_properly(reply.events)
            &&& reply.error is None ==> (reply.done <==> reply.events.len() > 0 && is_terminal(
                reply.events.last(),
            ))
            &&& forall|i: int|
                0 <= i < reply.events.len() && (hands_over_call(#[trigger] reply.events[i])
                    || reply.events[i] is Completed) ==> incoming == IncomingView::Data("[DONE]"@)
                    && reply.events.last() is Completed
        }),
{
    let (_, reply) = reply_view(completion, tools, incoming);
    if let IncomingView::Data(data) = incoming {
        if data == "[DONE]"@ {
            if completion.is_cut_off() {
                cut_off_completions_run_nothing(completion, tools);
            } else {
                complete_completions_run_advertised_tools(completion, tools);
            }
            if let Ok(events) = completion.finished(tools) {
                if completion.is_cut_off() {
                    assert forall|i: int| 0 <= i < events.len() - 1 implies !is_terminal(#[trigger] events[i])
                        && !hands_over_call(events[i]) by {
                        assert(events.drop_last()[i] == events[i]);
                    }
                }
            }
        } else {
            lemma_chunk_reply(completion, tools, data);
            let events = reply.events;
            assert forall|i: int| 0 <= i < events.len() implies !hands_over_call(#[trigger] events[i])
                && !(events[i] is Completed) && (i < events.len() - 1 ==> !is_terminal(events[i])) by {
                if i < events.len() - 1 {
                    assert(events.drop_last()[i] == events[i]);
                }
            }
        }
    }
}

/// The completion before a chunk, with the bytes of its data counted.
spec fn counted(completion: CompletionView, data: Seq<char>) -> CompletionView {
    CompletionView {
        bytes: saturated(completion.bytes, byte_count(data)),
        ..completion
    }
}

proof fn lemma_chunk_reply(completion: CompletionView, tools: Map<Seq<char>, ToolView>, data: Seq<char>)
    requires
        data != "[DONE]"@,
    ensures
        ({
            let (after, reply) = reply_view(completion, tools, IncomingView::Data(data));
            &&& reply.error is Some ==> reply.done && reply.events.len() == 0
            &&& reply.events.len() > 0 ==> only_progress(reply.events.drop_last())
            &&& reply.events.len() > 0 ==> !hands_over_call(reply.events.last())
            &&& reply.events.len() > 0 ==> !(reply.events.last() is Completed)
            &&& reply.error is None ==> (reply.done <==> reply.events.len() > 0 && is_terminal(
                reply.events.last(),
            ))
            &&& !reply.done ==> {
                &&& only_progress(reply.events)
                &&& after.text == completion.text + streamed_text(reply.events)
                &&& after.bytes == completion.bytes + byte_count(data)
                &&& after.bytes <= MAX_BYTES
                &&& after.id.len() > 0
                &&& completion.id.len() > 0 ==> after.id == completion.id
                &&& parsed(data) matches Some(chunk)
                &&& chunk.field("error"@) is Null
                &&& counted(completion, data).updated(chunk, tools) == (
                    after,
                    Ok::<Seq<EventView>, ErrorView>(reply.events),
                )
            }
            &&& reply.done && reply.error is None ==> {
                &&& streamed_text(reply.events) == Seq::<char>::empty()
                &&& reports_no_text(reply.events)
                &&& forall|i: int| 0 <= i < reply.events.len() ==> !opens_message(#[trigger] reply.events[i])
                &&& completion.text.len() > 0 ==> exists|id: Seq<char>| #[trigger]
                    reply.events.contains(
                        EventView::OutputItemDone(message_item(id, seq![completion.text])),
                    )
            }
        }),
{
    let before = counted(completion, data);
    if before.bytes <= MAX_BYTES {
        if let Some(chunk) = parsed(data) {
            if let (after, Ok(events)) = before.updated(chunk, tools) {
                if chunk.field("error"@) is Null {
                    chunks_only_add(before, chunk, tools);
                    lemma_progress(events);
                    lemma_all_reported(events);
                    if events.len() > 0 {
                        assert(!is_terminal(events[events.len() - 1]));
                    }
                } else {
                    provider_errors_are_reported(before, chunk, tools);
                    let failed = before.with_usage(chunk).0.failed(
                        chunk,
                        serialized(chunk),
                    );
                    cut_off_completions_run_nothing(failed, tools);
                    lemma_all_reported(events);
                    lemma_no_text(events);
                    lemma_end_opens_nothing(failed, tools);
                    if completion.text.len() > 0 {
                        assert(events.contains(
                            EventView::OutputItemDone(message_item(failed.id, seq![completion.text])),
                        ));
                    }
                }
            }
        }
    }
}

/// All that a stream has reported.
pub struct Transcript {
    pub completion: CompletionView,
    pub events: Seq<EventView>,
    pub error: Option<ErrorView>,
    pub done: bool,
}

/// What a stream has reported after these arrivals. Nothing is reported after the
/// end.
pub open spec fn transcript(tools: Map<Seq<char>, ToolView>, arrivals: Seq<IncomingView>) -> Transcript
    decreases arrivals.len(),
{
    if arrivals.len() == 0 {
        Transcript { completion: blank_completion(), events: Seq::empty(), error: None, done: false }
    } else {
        let before = transcript(tools, arrivals.drop_last());
        if before.done {
            before
        } else {
            let (completion, reply) = reply_view(before.completion, tools, arrivals.last());
            Transcript {
                completion,
                events: before.events + reply.events,
                error: reply.error,
                done: reply.done,
            }
        }
    }
}

/// The bytes of all data that arrived.
pub open spec fn arrived_bytes(arrivals: Seq<IncomingView>) -> nat
    decreases arrivals.len(),
{
    if arrivals.len() == 0 {
        0
    } else {
        arrived_bytes(arrivals.drop_last()) + match arrivals.last() {
            IncomingView::Data(data) => byte_count(data),
            _ => 0,
        }
    }
}

proof fn lemma_running(tools: Map<Seq<char>, ToolView>, arrivals: Seq<IncomingView>)
    ensures
        ({
            let all = transcript(tools, arrivals);
            !all.done ==> {
                &&& all.error is None
                &&& only_progress(all.events)
                &&& all.completion.text == streamed_text(all.events)
                &&& is_told_so_far(all.completion, all.events)
                &&& all.completion.bytes == arrived_bytes(arrivals)
                &&& all.completion.bytes <= MAX_BYTES
            }
        }),
    decreases arrivals.len(),
{
    if arrivals.len() > 0 {
        lemma_running(tools, arrivals.drop_last());
        let before = transcript(tools, arrivals.drop_last());
        let all = transcript(tools, arrivals);
        if !all.done {
            let (_, reply) = reply_view(before.completion, tools, arrivals.last());
            if let IncomingView::Data(data) = arrivals.last() {
                if data == "[DONE]"@ {
                    assert(reply.done);
                } else {
                    lemma_chunk_reply(before.completion, tools, data);
                    lemma_streamed_text(before.events, reply.events);
                    lemma_chunk_told(
                        counted(before.completion, data),
                        before.events,
                        parsed(data)->Some_0,
                        tools,
                    );
                    assert forall|i: int| 0 <= i < all.events.len() implies !hands_over_call(
                        #[trigger] all.events[i],
                    ) && !is_terminal(all.events[i]) by {
                        if i < before.events.len() {
                            assert(all.events[i] == before.events[i]);
                        } else {
                            assert(all.events[i] == reply.events[i - before.events.len()]);
                        }
                    }
                }
            }
        }
    }
}

/// A stream that has not ended has reported nothing but progress: no call is handed
/// over, and nothing is called complete. Its text is what its fragments add up to,
/// and its data is within the limit.
pub proof fn running_streams_report_progress(tools: Map<Seq<char>, ToolView>, arrivals: Seq<IncomingView>)
    requires
        !transcript(tools, arrivals).done,
    ensures
        ({
            let all = transcript(tools, arrivals);
            &&& all.error is None
            &&& only_progress(all.events)
            &&& all.completion.text == streamed_text(all.events)
            &&& arrived_bytes(arrivals) <= MAX_BYTES
        }),
{
    lemma_running(tools, arrivals);
}

/// A stream that has ended has reported either an error, and then no call and no
/// end of the completion; or an end of the completion, as its last event.
///
/// Calls are handed over only in a completion that is complete, by a stream whose
/// data ended with the mark for that. No call of a stream that broke off, failed, or
/// was refused at any point is ever handed over.
pub proof fn streams_run_all_or_nothing(tools: Map<Seq<char>, ToolView>, arrivals: Seq<IncomingView>)
    requires
        transcript(tools, arrivals).done,
    ensures
        ({
            let all = transcript(tools, arrivals);
            &&& all.error is Some ==> only_progress(all.events)
            &&& all.error is None ==> all.events.len() > 0 && is_terminal(all.events.last())
            &&& ends_properly(all.events)
            &&& forall|i: int|
                0 <= i < all.events.len() && (hands_over_call(#[trigger] all.events[i])
                    || all.events[i] is Completed) ==> all.error is None && all.events.last() is Completed
                    && arrivals.contains(IncomingView::Data("[DONE]"@))
        }),
    decreases arrivals.len(),
{
    let all = transcript(tools, arrivals);
    let earlier = arrivals.drop_last();
    let before = transcript(tools, earlier);
    if before.done {
        streams_run_all_or_nothing(tools, earlier);
        if earlier.contains(IncomingView::Data("[DONE]"@)) {
            let i = choose|i: int| 0 <= i < earlier.len() && earlier[i] == IncomingView::Data("[DONE]"@);
            assert(arrivals[i] == IncomingView::Data("[DONE]"@));
        }
    } else {
        lemma_running(tools, earlier);
        let (_, reply) = reply_view(before.completion, tools, arrivals.last());
        replies_end_properly(before.completion, tools, arrivals.last());
        assert(arrivals[arrivals.len() - 1] == arrivals.last());
        assert forall|i: int| 0 <= i < before.events.len() implies !hands_over_call(#[trigger] all.events[i])
            && !is_terminal(all.events[i]) by {
            assert(all.events[i] == before.events[i]);
        }
        assert forall|i: int| before.events.len() <= i < all.events.len() implies #[trigger] all.events[i]
            == reply.events[i - before.events.len()] by {}
        if reply.events.len() > 0 {
            assert(all.events.last() == reply.events.last());
        } else {
            assert(all.events =~= before.events);
        }
    }
}

/// The text of a stream that ended without an error is the one that its fragments
/// add up to, whether the completion is complete or was cut off.
pub proof fn streamed_text_is_kept(tools: Map<Seq<char>, ToolView>, arrivals: Seq<IncomingView>)
    requires
        transcript(tools, arrivals).done,
        transcript(tools, arrivals).error is None,
        streamed_text(transcript(tools, arrivals).events).len() > 0,
    ensures
        exists|id: Seq<char>| #[trigger]
            transcript(tools, arrivals).events.contains(
                EventView::OutputItemDone(
                    message_item(id, seq![streamed_text(transcript(tools, arrivals).events)]),
                ),
            ),
    decreases arrivals.len(),
{
    let all = transcript(tools, arrivals);
    let before = transcript(tools, arrivals.drop_last());
    if before.done {
        streamed_text_is_kept(tools, arrivals.drop_last());
    } else {
        lemma_running(tools, arrivals.drop_last());
        let completion = before.completion;
        let (_, reply) = reply_view(completion, tools, arrivals.last());
        lemma_streamed_text(before.events, reply.events);
        let data = arrivals.last()->Data_0;
        if data == "[DONE]"@ {
            lemma_finished(completion, tools);
            lemma_no_text(reply.events);
        } else {
            lemma_chunk_reply(completion, tools, data);
        }
        assert(streamed_text(all.events) =~= completion.text);
        let id = choose|id: Seq<char>| #[trigger]
            reply.events.contains(EventView::OutputItemDone(message_item(id, seq![completion.text])));
        let done = EventView::OutputItemDone(message_item(id, seq![completion.text]));
        let i = choose|i: int| 0 <= i < reply.events.len() && reply.events[i] == done;
        assert(all.events[before.events.len() + i] == done);
        assert(all.events.contains(
            EventView::OutputItemDone(message_item(id, seq![streamed_text(all.events)])),
        ));
    }
}

/// Every stream tells its text as it should, however it goes on and ends: in
/// fragments, with the message opened once, right before the first.
pub proof fn streams_tell_their_text(tools: Map<Seq<char>, ToolView>, arrivals: Seq<IncomingView>)
    ensures
        exists|id: Seq<char>| #[trigger] is_told(id, transcript(tools, arrivals).events),
    decreases arrivals.len(),
{
    let all = transcript(tools, arrivals);
    lemma_running(tools, arrivals);
    if !all.done {
        assert(is_told(all.completion.id, all.events));
    } else {
        let before = transcript(tools, arrivals.drop_last());
        if before.done {
            streams_tell_their_text(tools, arrivals.drop_last());
        } else {
            lemma_running(tools, arrivals.drop_last());
            let completion = before.completion;
            let (_, reply) = reply_view(completion, tools, arrivals.last());
            assert(is_told(completion.id, before.events));
            if reply.error is Some {
                replies_end_properly(completion, tools, arrivals.last());
                assert(all.events =~= before.events);
            } else {
                let data = arrivals.last()->Data_0;
                if data == "[DONE]"@ {
                    lemma_finished(completion, tools);
                    lemma_end_opens_nothing(completion, tools);
                } else {
                    lemma_chunk_reply(completion, tools, data);
                }
                lemma_told_on(completion.id, before.events, reply.events);
            }
            assert(is_told(completion.id, all.events));
        }
    }
}

proof fn lemma_finished(completion: CompletionView, tools: Map<Seq<char>, ToolView>)
    ensures
        completion.finished(tools) matches Ok(events) ==> reports_no_text(events) && (completion.text.len()
            > 0 ==> events.contains(
            EventView::OutputItemDone(message_item(completion.id, seq![completion.text])),
        )),
{
    if completion.is_cut_off() {
        cut_off_completions_run_nothing(completion, tools);
    } else {
        complete_completions_run_advertised_tools(completion, tools);
    }
}

/// A stream that breaks off ends with an error: where its time is up, where it ends
/// before the mark for that, and where something arrives that is no event or no JSON.
pub proof fn broken_streams_fail(tools: Map<Seq<char>, ToolView>, arrivals: Seq<IncomingView>, arrival: IncomingView)
    requires
        !transcript(tools, arrivals).done,
        arrival matches IncomingView::Data(data) ==> data != "[DONE]"@ && parsed(data) is None,
    ensures
        ({
            let before = transcript(tools, arrivals);
            let after = transcript(tools, arrivals.push(arrival));
            &&& after.done
            &&& after.error is Some
            &&& after.events == before.events
            &&& !(arrival is Data) ==> after.error->Some_0 is Stream
        }),
{
    assert(arrivals.push(arrival).drop_last() =~= arrivals);
    let before = transcript(tools, arrivals);
    assert(before.events + Seq::<EventView>::empty() =~= before.events);
}

/// A stream with more than 16 MiB of data is refused.
pub proof fn long_streams_fail(tools: Map<Seq<char>, ToolView>, arrivals: Seq<IncomingView>)
    requires
        arrived_bytes(arrivals) > 16777216,
    ensures
        transcript(tools, arrivals).done,
{
    lemma_running(tools, arrivals);
}

} // verus!
