//! A chat stream: the request that opens it, and the reply to each thing that
//! arrives on it.

use vstd::prelude::*;

use crate::completion::{blank_completion, Completion, CompletionView};
use crate::dispatch::optional_json;
use crate::error::{invalid, refusal, ApiError, ErrorView};
use crate::event::{EventView, ResponseEvent};
use crate::history::byte_count;
use crate::json::{Json, JsonView};
use crate::request::{encode, encode_view};
use crate::text::same_text;
use crate::tools::{ToolTable, ToolView};
use crate::views::{group_views, views};
use crate::wire::{parse, parsed, serialized, text_of};

verus! {

broadcast use group_views;

/// The HTTP request that opens a stream.
#[derive(Debug)]
pub struct ChatRequest {
    pub method: &'static str,
    pub path: &'static str,
    pub accept: &'static str,
    pub body: String,
}

/// The HTTP request for a request of the agent, and the tools that the answer may
/// call.
pub fn chat_request(request: Json) -> (opened: Result<(ChatRequest, ToolTable), ApiError>)
    ensures
        match opened {
            Ok((opened, table)) => {
                &&& table.wf()
                &&& encode_view(request@) matches Ok((body, tools))
                &&& opened.method@ == "POST"@
                &&& opened.path@ == "/chat/completions"@
                &&& opened.accept@ == "text/event-stream"@
                &&& opened.body@ == serialized(body)
                &&& table@ == tools
            },
            Err(error) => encode_view(request@) == Err::<(JsonView, Map<Seq<char>, ToolView>), ErrorView>(
                error@,
            ),
        },
{
    let (body, table) = encode(request)?;
    let opened = ChatRequest {
        method: "POST",
        path: "/chat/completions",
        accept: "text/event-stream",
        body: text_of(&body),
    };
    Ok((opened, table))
}

/// What arrives on a stream: the data of an event, the end of the time that the
/// stream may be idle, the end of the stream, or something that is no event.
#[derive(Debug)]
pub enum Incoming {
    Data(String),
    TimedOut,
    Ended,
    Malformed,
}

pub enum IncomingView {
    Data(Seq<char>),
    TimedOut,
    Ended,
    Malformed,
}

impl View for Incoming {
    type V = IncomingView;

    open spec fn view(&self) -> IncomingView {
        match *self {
            Incoming::Data(data) => IncomingView::Data(data@),
            Incoming::TimedOut => IncomingView::TimedOut,
            Incoming::Ended => IncomingView::Ended,
            Incoming::Malformed => IncomingView::Malformed,
        }
    }
}

/// What to report: the events, then the error, and whether nothing more will come.
#[derive(Debug)]
pub struct Reply {
    pub events: Vec<ResponseEvent>,
    pub error: Option<ApiError>,
    pub done: bool,
}

pub struct ReplyView {
    pub events: Seq<EventView>,
    pub error: Option<ErrorView>,
    pub done: bool,
}

impl View for Reply {
    type V = ReplyView;

    open spec fn view(&self) -> ReplyView {
        ReplyView {
            events: views(self.events@),
            error: match self.error {
                Some(error) => Some(error@),
                None => None,
            },
            done: self.done,
        }
    }
}

/// The most data that a completion may have, in bytes.
pub const MAX_BYTES: usize = 16777216;

/// The reply that an error ends the stream.
pub open spec fn failure(error: ErrorView) -> ReplyView {
    ReplyView { events: Seq::empty(), error: Some(error), done: true }
}

/// Whether the events report that the completion is incomplete, which ends a stream.
pub open spec fn ends(events: Seq<EventView>) -> bool {
    exists|i: int| 0 <= i < events.len() && (#[trigger] events[i]) is Incomplete
}

/// The events up to the first that ends a stream.
pub open spec fn until_end(events: Seq<EventView>) -> Seq<EventView>
    decreases events.len(),
{
    if events.len() > 0 && ends(events.drop_last()) {
        until_end(events.drop_last())
    } else {
        events
    }
}

/// The sum, or the largest number that there is.
pub open spec fn saturated(a: usize, b: nat) -> usize {
    if a + b <= usize::MAX {
        (a + b) as usize
    } else {
        usize::MAX
    }
}

/// The reply to a chunk, where `chunk` is what its data reads as.
pub open spec fn chunk_reply(
    completion: CompletionView,
    chunk: Option<JsonView>,
    tools: Map<Seq<char>, ToolView>,
) -> (CompletionView, ReplyView) {
    match chunk {
        None => (completion, failure(refusal("invalid stream JSON"@))),
        Some(chunk) => match completion.updated(chunk, tools) {
            (completion, Err(error)) => (completion, failure(error)),
            (completion, Ok(events)) => (
                completion,
                ReplyView { events: until_end(events), error: None, done: ends(events) },
            ),
        },
    }
}

/// The reply to the mark that ends a completion.
pub open spec fn end_reply(completion: CompletionView, tools: Map<Seq<char>, ToolView>) -> ReplyView {
    match completion.finished(tools) {
        Err(error) => failure(error),
        Ok(events) => ReplyView { events, error: None, done: true },
    }
}

/// The reply to what arrives, and the completion after it.
pub open spec fn reply_view(
    completion: CompletionView,
    tools: Map<Seq<char>, ToolView>,
    incoming: IncomingView,
) -> (CompletionView, ReplyView) {
    match incoming {
        IncomingView::TimedOut => (
            completion,
            failure(ErrorView::Stream("CodeBuddy stream idle timeout"@)),
        ),
        IncomingView::Ended => (
            completion,
            failure(ErrorView::Stream("CodeBuddy stream ended without [DONE]"@)),
        ),
        IncomingView::Malformed => (
            completion,
            failure(ErrorView::Stream("invalid CodeBuddy event stream"@)),
        ),
        IncomingView::Data(data) => if data == "[DONE]"@ {
            (blank_completion(), end_reply(completion, tools))
        } else {
            let counted = CompletionView {
                bytes: saturated(completion.bytes, byte_count(data)),
                ..completion
            };
            if counted.bytes > MAX_BYTES {
                (counted, failure(refusal("completion exceeds 16 MiB adapter limit"@)))
            } else {
                chunk_reply(counted, parsed(data), tools)
            }
        },
    }
}

/// A stream that has been opened.
#[derive(Debug)]
pub struct ChatStream {
    pub completion: Completion,
    pub tools: ToolTable,
}

fn failed(error: ApiError) -> (reply: Reply)
    ensures
        reply@ == failure(error@),
{
    let events: Vec<ResponseEvent> = Vec::new();
    assert(views(events@) =~= Seq::empty());
    Reply { events, error: Some(error), done: true }
}

/// The events up to the first that ends a stream are those up to its place.
pub proof fn lemma_until_end(events: Seq<EventView>, i: int)
    requires
        0 <= i < events.len(),
        events[i] is Incomplete,
        forall|j: int| 0 <= j < i ==> !((#[trigger] events[j]) is Incomplete),
    ensures
        until_end(events) == events.take(i + 1),
    decreases events.len(),
{
    let before = events.drop_last();
    if i < before.len() {
        assert(before[i] is Incomplete);
        assert forall|j: int| 0 <= j < i implies !((#[trigger] before[j]) is Incomplete) by {
            assert(before[j] == events[j]);
        }
        lemma_until_end(before, i);
        assert(before.take(i + 1) =~= events.take(i + 1));
    } else {
        assert(!ends(before)) by {
            assert forall|j: int| 0 <= j < before.len() implies !((#[trigger] before[j]) is Incomplete) by {
                assert(before[j] == events[j]);
            }
        }
        assert(events.take(i + 1) =~= events);
    }
}

/// The reply with those events.
fn report(reported: Vec<ResponseEvent>) -> (reply: Reply)
    ensures
        reply@ == (ReplyView {
            events: until_end(views(reported@)),
            error: None,
            done: ends(views(reported@)),
        }),
{
    let ghost all = views(reported@);
    let mut events = reported;
    let mut i: usize = 0;
    while i < events.len()
        invariant
            i <= events.len(),
            all == views(reported@),
            all == views(events@),
            forall|j: int| 0 <= j < i ==> !((#[trigger] all[j]) is Incomplete),
        decreases events.len() - i,
    {
        assert(all[i as int] == events[i as int]@);
        let last = match &events[i] {
            ResponseEvent::Incomplete { .. } => true,
            _ => false,
        };
        if last {
            proof {
                assert(all[i as int] is Incomplete);
                lemma_until_end(all, i as int);
            }
            events.truncate(i + 1);
            assert(views(events@) =~= all.take(i + 1));
            return Reply { events, error: None, done: true };
        }
        i = i + 1;
    }
    proof {
        assert(!ends(all));
        assert(all.len() > 0 ==> !ends(all.drop_last())) by {
            if all.len() > 0 {
                assert forall|j: int| 0 <= j < all.drop_last().len() implies !((#[trigger] all.drop_last()[j]) is Incomplete) by {
                    assert(all.drop_last()[j] == all[j]);
                }
            }
        }
    }
    Reply { events, error: None, done: false }
}

impl ChatStream {
    pub open spec fn wf(&self) -> bool {
        self.completion.wf() && self.tools.wf()
    }

    /// A stream on which nothing has arrived.
    pub fn new(tools: ToolTable) -> (stream: ChatStream)
        requires
            tools.wf(),
        ensures
            stream.wf(),
            stream.completion@ == blank_completion(),
            stream.tools@ == tools@,
    {
        ChatStream { completion: Completion::new(), tools }
    }

    /// The reply to a chunk, where `chunk` is what its data reads as.
    pub fn receive_chunk(&mut self, chunk: Option<Json>) -> (reply: Reply)
        requires
            old(self).wf(),
        ensures
            final(self).wf(),
            final(self).tools@ == old(self).tools@,
            (final(self).completion@, reply@) == chunk_reply(
                old(self).completion@,
                optional_json(chunk),
                old(self).tools@,
            ),
    {
        let chunk = match chunk {
            Some(chunk) => chunk,
            None => return failed(invalid("invalid stream JSON")),
        };
        match self.completion.update(chunk, &self.tools) {
            Ok(events) => report(events),
            Err(error) => failed(error),
        }
    }

    /// The reply to what arrives.
    pub fn receive(&mut self, incoming: Incoming) -> (reply: Reply)
        requires
            old(self).wf(),
        ensures
            final(self).wf(),
            final(self).tools@ == old(self).tools@,
            (final(self).completion@, reply@) == reply_view(
                old(self).completion@,
                old(self).tools@,
                incoming@,
            ),
    {
        let data = match incoming {
            Incoming::TimedOut => {
                return failed(ApiError::Stream("CodeBuddy stream idle timeout".to_owned()));
            },
            Incoming::Ended => {
                return failed(ApiError::Stream("CodeBuddy stream ended without [DONE]".to_owned()));
            },
            Incoming::Malformed => {
                return failed(ApiError::Stream("invalid CodeBuddy event stream".to_owned()));
            },
            Incoming::Data(data) => data,
        };
        if same_text(data.as_str(), "[DONE]") {
            let mut completion = Completion::new();
            std::mem::swap(&mut completion, &mut self.completion);
            return match completion.finish(&self.tools) {
                Ok(events) => Reply { events, error: None, done: true },
                Err(error) => failed(error),
            };
        }
        let count = data.as_str().as_bytes().len();
        self.completion.bytes = self.completion.bytes.saturating_add(count);
        if self.completion.bytes > MAX_BYTES {
            return failed(invalid("completion exceeds 16 MiB adapter limit"));
        }
        self.receive_chunk(parse(data.as_str()))
    }
}

} // verus!
