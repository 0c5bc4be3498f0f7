//! The messages of a chat request.

use vstd::prelude::*;
use vstd::string::StringExecFns;

use crate::json::{items_view, Json, JsonView};
use crate::text::optional_text;
use crate::views::{group_views, views};

verus! {

broadcast use group_views;

/// A tool call in a chat message.
#[derive(Debug)]
pub struct WireCall {
    pub id: String,
    pub name: String,
    pub arguments: String,
}

pub struct WireCallView {
    pub id: Seq<char>,
    pub name: Seq<char>,
    pub arguments: Seq<char>,
}

impl View for WireCall {
    type V = WireCallView;

    open spec fn view(&self) -> WireCallView {
        WireCallView { id: self.id@, name: self.name@, arguments: self.arguments@ }
    }
}

impl WireCallView {
    /// The call in its form on the wire.
    pub open spec fn json(self) -> JsonView {
        JsonView::object().with("id"@, JsonView::Text(self.id)).with(
            "type"@,
            JsonView::Text("function"@),
        ).with(
            "function"@,
            JsonView::object().with("name"@, JsonView::Text(self.name)).with(
                "arguments"@,
                JsonView::Text(self.arguments),
            ),
        )
    }
}

impl WireCall {
    pub fn json(&self) -> (json: Json)
        ensures
            json@ == self@.json(),
    {
        Json::object().with("id", Json::Text(self.id.clone())).with("type", Json::of_text("function")).with(
            "function",
            Json::object().with("name", Json::Text(self.name.clone())).with(
                "arguments",
                Json::Text(self.arguments.clone()),
            ),
        )
    }
}

impl Clone for WireCall {
    fn clone(&self) -> (copy: WireCall)
        ensures
            copy@ == self@,
    {
        WireCall { id: self.id.clone(), name: self.name.clone(), arguments: self.arguments.clone() }
    }
}

/// A message of a chat request: one of the system or the user, one of the
/// assistant, or the result of a tool call.
#[derive(Debug)]
pub enum Message {
    Plain { role: String, content: String },
    Assistant { content: String, reasoning: Option<String>, calls: Vec<WireCall> },
    Tool { call_id: String, content: String },
}

pub enum MessageView {
    Plain { role: Seq<char>, content: Seq<char> },
    Assistant { content: Seq<char>, reasoning: Option<Seq<char>>, calls: Seq<WireCallView> },
    Tool { call_id: Seq<char>, content: Seq<char> },
}

impl View for Message {
    type V = MessageView;

    open spec fn view(&self) -> MessageView {
        match *self {
            Message::Plain { role, content } => MessageView::Plain { role: role@, content: content@ },
            Message::Assistant { content, reasoning, calls } => MessageView::Assistant {
                content: content@,
                reasoning: optional_text(reasoning),
                calls: views(calls@),
            },
            Message::Tool { call_id, content } => MessageView::Tool { call_id: call_id@, content: content@ },
        }
    }
}

pub open spec fn calls_json(calls: Seq<WireCallView>) -> Seq<JsonView> {
    calls.map_values(|call: WireCallView| call.json())
}

impl MessageView {
    /// The message in its form on the wire. An assistant message names its
    /// reasoning and its calls only where it has some.
    pub open spec fn json(self) -> JsonView {
        match self {
            MessageView::Plain { role, content } => JsonView::object().with("role"@, JsonView::Text(role)).with(
                "content"@,
                JsonView::Text(content),
            ),
            MessageView::Assistant { content, reasoning, calls } => {
                let plain = JsonView::object().with("role"@, JsonView::Text("assistant"@)).with(
                    "content"@,
                    JsonView::Text(content),
                );
                let reasoned = match reasoning {
                    Some(reasoning) => plain.with("reasoning_content"@, JsonView::Text(reasoning)),
                    None => plain,
                };
                if calls.len() > 0 {
                    reasoned.with("tool_calls"@, JsonView::Array(calls_json(calls)))
                } else {
                    reasoned
                }
            },
            MessageView::Tool { call_id, content } => JsonView::object().with("role"@, JsonView::Text("tool"@)).with(
                "tool_call_id"@,
                JsonView::Text(call_id),
            ).with("content"@, JsonView::Text(content)),
        }
    }

    /// The assistant message with more text.
    pub open spec fn with_text(self, text: Seq<char>) -> MessageView {
        match self {
            MessageView::Assistant { content, reasoning, calls } => MessageView::Assistant {
                content: content + text,
                reasoning,
                calls,
            },
            other => other,
        }
    }

    /// The assistant message with that reasoning; no reasoning leaves it alone.
    pub open spec fn with_reasoning(self, text: Seq<char>) -> MessageView {
        match self {
            MessageView::Assistant { content, reasoning, calls } => MessageView::Assistant {
                content,
                reasoning: if text.len() == 0 { reasoning } else { Some(text) },
                calls,
            },
            other => other,
        }
    }

    /// The assistant message with one more call.
    pub open spec fn with_call(self, call: WireCallView) -> MessageView {
        match self {
            MessageView::Assistant { content, reasoning, calls } => MessageView::Assistant {
                content,
                reasoning,
                calls: calls.push(call),
            },
            other => other,
        }
    }
}

/// What the assistant thought before a message, as it says it.
pub open spec fn thought_of(message: MessageView) -> Seq<char> {
    match message {
        MessageView::Assistant { reasoning: Some(reasoning), .. } => reasoning,
        _ => Seq::empty(),
    }
}

/// An assistant message with that text and nothing else.
pub open spec fn assistant(content: Seq<char>) -> MessageView {
    MessageView::Assistant { content, reasoning: None, calls: Seq::empty() }
}

impl Message {
    pub fn assistant(content: String) -> (message: Message)
        ensures
            message@ == assistant(content@),
    {
        Message::Assistant { content, reasoning: None, calls: Vec::new() }
    }

    pub fn is_assistant(&self) -> (is: bool)
        ensures
            is == (self@ is Assistant),
    {
        match self {
            Message::Assistant { .. } => true,
            _ => false,
        }
    }

    pub fn add_text(&mut self, text: &str)
        ensures
            final(self)@ == old(self)@.with_text(text@),
    {
        match self {
            Message::Assistant { content, .. } => {
                content.append(text);
            },
            _ => {},
        }
    }

    pub fn set_reasoning(&mut self, text: String)
        ensures
            final(self)@ == old(self)@.with_reasoning(text@),
    {
        match self {
            Message::Assistant { reasoning, .. } => {
                if !text.as_str().is_empty() {
                    *reasoning = Some(text);
                }
            },
            _ => {},
        }
    }

    pub fn add_call(&mut self, call: WireCall)
        ensures
            final(self)@ == old(self)@.with_call(call@),
    {
        match self {
            Message::Assistant { calls, .. } => {
                calls.push(call);
            },
            _ => {},
        }
    }

    /// What the assistant thought before the message.
    pub fn thought(&self) -> (thought: String)
        ensures
            thought@ == thought_of(self@),
    {
        match self {
            Message::Assistant { reasoning, .. } => match reasoning {
                Some(reasoning) => reasoning.clone(),
                None => String::new(),
            },
            _ => String::new(),
        }
    }

    /// The message in its form on the wire.
    pub fn json(&self) -> (json: Json)
        ensures
            json@ == self@.json(),
    {
        match self {
            Message::Plain { role, content } => Json::object().with("role", Json::Text(role.clone())).with(
                "content",
                Json::Text(content.clone()),
            ),
            Message::Assistant { content, reasoning, calls } => {
                let plain = Json::object().with("role", Json::of_text("assistant")).with(
                    "content",
                    Json::Text(content.clone()),
                );
                let reasoned = match reasoning {
                    Some(reasoning) => plain.with("reasoning_content", Json::Text(reasoning.clone())),
                    None => plain,
                };
                if calls.len() > 0 {
                    let mut list: Vec<Json> = Vec::new();
                    let mut i: usize = 0;
                    while i < calls.len()
                        invariant
                            i <= calls.len(),
                            list.len() == i,
                            forall|j: int| 0 <= j < i ==> (#[trigger] list[j])@ == calls[j]@.json(),
                        decreases calls.len() - i,
                    {
                        list.push(calls[i].json());
                        i = i + 1;
                    }
                    assert(items_view(list@) =~= calls_json(views(calls@)));
                    reasoned.with("tool_calls", Json::Array(list))
                } else {
                    reasoned
                }
            },
            Message::Tool { call_id, content } => Json::object().with("role", Json::of_text("tool")).with(
                "tool_call_id",
                Json::Text(call_id.clone()),
            ).with("content", Json::Text(content.clone())),
        }
    }
}

} // verus!
