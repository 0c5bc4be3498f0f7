//! What a completion adds to the agent's history, and the events that report it.

use vstd::prelude::*;

use crate::json::{items_view, Json, JsonView};
use crate::text::{copy_optional_text, optional_text, same_text};
use crate::views::{group_views, views};

verus! {

broadcast use group_views;

/// An item of the agent's history.
#[allow(inconsistent_fields)]
#[derive(Debug, PartialEq)]
pub enum ResponseItem {
    Message { id: Option<String>, role: String, content: Vec<String> },
    Reasoning { id: String, content: String },
    FunctionCall { call_id: String, name: String, namespace: Option<String>, arguments: String },
    CustomToolCall { call_id: String, name: String, namespace: Option<String>, input: String },
    FunctionCallOutput { call_id: Option<String>, output: String },
    CustomToolCallOutput { call_id: String, output: String },
}

#[allow(inconsistent_fields)]
pub enum ItemView {
    Message { id: Option<Seq<char>>, role: Seq<char>, content: Seq<Seq<char>> },
    Reasoning { id: Seq<char>, content: Seq<char> },
    FunctionCall {
        call_id: Seq<char>,
        name: Seq<char>,
        namespace: Option<Seq<char>>,
        arguments: Seq<char>,
    },
    CustomToolCall {
        call_id: Seq<char>,
        name: Seq<char>,
        namespace: Option<Seq<char>>,
        input: Seq<char>,
    },
    FunctionCallOutput { call_id: Option<Seq<char>>, output: Seq<char> },
    CustomToolCallOutput { call_id: Seq<char>, output: Seq<char> },
}

impl View for ResponseItem {
    type V = ItemView;

    open spec fn view(&self) -> ItemView {
        match *self {
            ResponseItem::Message { id, role, content } => ItemView::Message {
                id: optional_text(id),
                role: role@,
                content: views(content@),
            },
            ResponseItem::Reasoning { id, content } => ItemView::Reasoning { id: id@, content: content@ },
            ResponseItem::FunctionCall { call_id, name, namespace, arguments } => ItemView::FunctionCall {
                call_id: call_id@,
                name: name@,
                namespace: optional_text(namespace),
                arguments: arguments@,
            },
            ResponseItem::CustomToolCall { call_id, name, namespace, input } => ItemView::CustomToolCall {
                call_id: call_id@,
                name: name@,
                namespace: optional_text(namespace),
                input: input@,
            },
            ResponseItem::FunctionCallOutput { call_id, output } => ItemView::FunctionCallOutput {
                call_id: optional_text(call_id),
                output: output@,
            },
            ResponseItem::CustomToolCallOutput { call_id, output } => ItemView::CustomToolCallOutput {
                call_id: call_id@,
                output: output@,
            },
        }
    }
}

/// A text, or null.
pub open spec fn text_or_null(text: Option<Seq<char>>) -> JsonView {
    match text {
        Some(text) => JsonView::Text(text),
        None => JsonView::Null,
    }
}

/// A part of a content list.
pub open spec fn part(kind: Seq<char>, text: Seq<char>) -> JsonView {
    JsonView::object().with("type"@, JsonView::Text(kind)).with("text"@, JsonView::Text(text))
}

pub open spec fn content_parts(role: Seq<char>, content: Seq<Seq<char>>) -> Seq<JsonView> {
    content.map_values(
        |text: Seq<char>| part(if role == "assistant"@ { "output_text"@ } else { "input_text"@ }, text),
    )
}

impl ItemView {
    /// The item in the form in which a request carries it.
    pub open spec fn json(self) -> JsonView {
        match self {
            ItemView::Message { id, role, content } => JsonView::object().with(
                "type"@,
                JsonView::Text("message"@),
            ).with("id"@, text_or_null(id)).with("role"@, JsonView::Text(role)).with(
                "content"@,
                JsonView::Array(content_parts(role, content)),
            ),
            ItemView::Reasoning { id, content } => JsonView::object().with(
                "type"@,
                JsonView::Text("reasoning"@),
            ).with("id"@, JsonView::Text(id)).with("summary"@, JsonView::Array(Seq::empty())).with(
                "content"@,
                JsonView::Array(seq![part("reasoning_text"@, content)]),
            ),
            ItemView::FunctionCall { call_id, name, namespace, arguments } => JsonView::object().with(
                "type"@,
                JsonView::Text("function_call"@),
            ).with("id"@, JsonView::Text(call_id)).with("call_id"@, JsonView::Text(call_id)).with(
                "name"@,
                JsonView::Text(name),
            ).with("namespace"@, text_or_null(namespace)).with(
                "arguments"@,
                JsonView::Text(arguments),
            ).with("encrypted_function_args"@, JsonView::Array(Seq::empty())),
            ItemView::CustomToolCall { call_id, name, namespace, input } => JsonView::object().with(
                "type"@,
                JsonView::Text("custom_tool_call"@),
            ).with("id"@, JsonView::Text(call_id)).with("call_id"@, JsonView::Text(call_id)).with(
                "name"@,
                JsonView::Text(name),
            ).with("namespace"@, text_or_null(namespace)).with("input"@, JsonView::Text(input)),
            ItemView::FunctionCallOutput { call_id, output } => JsonView::object().with(
                "type"@,
                JsonView::Text("function_call_output"@),
            ).with("call_id"@, text_or_null(call_id)).with("output"@, JsonView::Text(output)),
            ItemView::CustomToolCallOutput { call_id, output } => JsonView::object().with(
                "type"@,
                JsonView::Text("custom_tool_call_output"@),
            ).with("call_id"@, JsonView::Text(call_id)).with("output"@, JsonView::Text(output)),
        }
    }
}

fn text_or_null_json(text: &Option<String>) -> (json: Json)
    ensures
        json@ == text_or_null(optional_text(*text)),
{
    match text {
        Some(text) => Json::Text(text.clone()),
        None => Json::Null,
    }
}

fn part_json(kind: &str, text: &str) -> (json: Json)
    ensures
        json@ == part(kind@, text@),
{
    Json::object().with("type", Json::of_text(kind)).with("text", Json::of_text(text))
}

fn copy_texts(texts: &Vec<String>) -> (copy: Vec<String>)
    ensures
        views(copy@) == views(texts@),
{
    let mut copy: Vec<String> = Vec::new();
    let mut i: usize = 0;
    while i < texts.len()
        invariant
            i <= texts.len(),
            copy.len() == i,
            forall|j: int| 0 <= j < i ==> (#[trigger] copy[j])@ == texts[j]@,
        decreases texts.len() - i,
    {
        copy.push(texts[i].clone());
        i = i + 1;
    }
    assert(views(copy@) =~= views(texts@));
    copy
}

impl Clone for ResponseItem {
    fn clone(&self) -> (copy: ResponseItem)
        ensures
            copy@ == self@,
    {
        match self {
            ResponseItem::Message { id, role, content } => ResponseItem::Message {
                id: copy_optional_text(id),
                role: role.clone(),
                content: copy_texts(content),
            },
            ResponseItem::Reasoning { id, content } => ResponseItem::Reasoning {
                id: id.clone(),
                content: content.clone(),
            },
            ResponseItem::FunctionCall { call_id, name, namespace, arguments } => {
                ResponseItem::FunctionCall {
                    call_id: call_id.clone(),
                    name: name.clone(),
                    namespace: copy_optional_text(namespace),
                    arguments: arguments.clone(),
                }
            },
            ResponseItem::CustomToolCall { call_id, name, namespace, input } => {
                ResponseItem::CustomToolCall {
                    call_id: call_id.clone(),
                    name: name.clone(),
                    namespace: copy_optional_text(namespace),
                    input: input.clone(),
                }
            },
            ResponseItem::FunctionCallOutput { call_id, output } => ResponseItem::FunctionCallOutput {
                call_id: copy_optional_text(call_id),
                output: output.clone(),
            },
            ResponseItem::CustomToolCallOutput { call_id, output } => {
                ResponseItem::CustomToolCallOutput { call_id: call_id.clone(), output: output.clone() }
            },
        }
    }
}

impl ResponseItem {
    /// The item in the form in which a request carries it.
    pub fn json(&self) -> (json: Json)
        ensures
            json@ == self@.json(),
    {
        match self {
            ResponseItem::Message { id, role, content } => {
                let kind = if same_text(role.as_str(), "assistant") {
                    "output_text"
                } else {
                    "input_text"
                };
                let mut parts: Vec<Json> = Vec::new();
                let mut i: usize = 0;
                while i < content.len()
                    invariant
                        i <= content.len(),
                        parts.len() == i,
                        forall|j: int| 0 <= j < i ==> (#[trigger] parts[j])@ == part(kind@, content[j]@),
                    decreases content.len() - i,
                {
                    parts.push(part_json(kind, content[i].as_str()));
                    i = i + 1;
                }
                assert(items_view(parts@) =~= content_parts(role@, views(content@)));
                Json::object().with("type", Json::of_text("message")).with("id", text_or_null_json(id)).with(
                    "role",
                    Json::Text(role.clone()),
                ).with("content", Json::Array(parts))
            },
            ResponseItem::Reasoning { id, content } => {
                let mut parts: Vec<Json> = Vec::new();
                parts.push(part_json("reasoning_text", content.as_str()));
                assert(items_view(parts@) =~= seq![part("reasoning_text"@, content@)]);
                let summary: Vec<Json> = Vec::new();
                assert(items_view(summary@) =~= Seq::empty());
                Json::object().with("type", Json::of_text("reasoning")).with("id", Json::Text(id.clone())).with(
                    "summary",
                    Json::Array(summary),
                ).with("content", Json::Array(parts))
            },
            ResponseItem::FunctionCall { call_id, name, namespace, arguments } => {
                let encrypted: Vec<Json> = Vec::new();
                assert(items_view(encrypted@) =~= Seq::empty());
                Json::object().with("type", Json::of_text("function_call")).with(
                    "id",
                    Json::Text(call_id.clone()),
                ).with("call_id", Json::Text(call_id.clone())).with("name", Json::Text(name.clone())).with(
                    "namespace",
                    text_or_null_json(namespace),
                ).with("arguments", Json::Text(arguments.clone())).with(
                    "encrypted_function_args",
                    Json::Array(encrypted),
                )
            },
            ResponseItem::CustomToolCall { call_id, name, namespace, input } => {
                Json::object().with("type", Json::of_text("custom_tool_call")).with(
                    "id",
                    Json::Text(call_id.clone()),
                ).with("call_id", Json::Text(call_id.clone())).with("name", Json::Text(name.clone())).with(
                    "namespace",
                    text_or_null_json(namespace),
                ).with("input", Json::Text(input.clone()))
            },
            ResponseItem::FunctionCallOutput { call_id, output } => {
                Json::object().with("type", Json::of_text("function_call_output")).with(
                    "call_id",
                    text_or_null_json(call_id),
                ).with("output", Json::Text(output.clone()))
            },
            ResponseItem::CustomToolCallOutput { call_id, output } => {
                Json::object().with("type", Json::of_text("custom_tool_call_output")).with(
                    "call_id",
                    Json::Text(call_id.clone()),
                ).with("output", Json::Text(output.clone()))
            },
        }
    }
}

/// The tokens that a completion used.
#[derive(Clone, Copy, Debug, PartialEq, Eq, Structural)]
pub struct TokenUsage {
    pub input_tokens: i64,
    pub cached_input_tokens: i64,
    pub cache_write_input_tokens: i64,
    pub output_tokens: i64,
    pub reasoning_output_tokens: i64,
    pub total_tokens: i64,
}

/// What the provider said of the usage, as it said it.
#[derive(Debug, PartialEq)]
pub struct ResponseUsageMetadata {
    pub amount: Option<String>,
    pub metadata: Option<Json>,
}

pub struct UsageMetadataView {
    pub amount: Option<Seq<char>>,
    pub metadata: Option<JsonView>,
}

impl View for ResponseUsageMetadata {
    type V = UsageMetadataView;

    open spec fn view(&self) -> UsageMetadataView {
        UsageMetadataView {
            amount: optional_text(self.amount),
            metadata: match self.metadata {
                Some(json) => Some(json@),
                None => None,
            },
        }
    }
}

/// Why a completion is incomplete.
#[derive(Clone, Copy, Debug, PartialEq, Eq, Structural)]
pub enum IncompleteKind {
    OutputLimit,
    ProviderError,
}

/// What a stream reports.
#[allow(inconsistent_fields)]
#[derive(Debug, PartialEq)]
pub enum ResponseEvent {
    Created { response_id: Option<String> },
    ServerModel(String),
    OutputItemAdded(ResponseItem),
    OutputItemDone(ResponseItem),
    OutputTextDelta(String),
    Completed {
        response_id: String,
        token_usage: Option<TokenUsage>,
        usage_metadata: Option<ResponseUsageMetadata>,
        end_turn: Option<bool>,
    },
    Incomplete {
        response_id: String,
        token_usage: Option<TokenUsage>,
        reason: String,
        kind: IncompleteKind,
    },
}

#[allow(inconsistent_fields)]
pub enum EventView {
    Created { response_id: Option<Seq<char>> },
    ServerModel(Seq<char>),
    OutputItemAdded(ItemView),
    OutputItemDone(ItemView),
    OutputTextDelta(Seq<char>),
    Completed {
        response_id: Seq<char>,
        token_usage: Option<TokenUsage>,
        usage_metadata: Option<UsageMetadataView>,
        end_turn: Option<bool>,
    },
    Incomplete {
        response_id: Seq<char>,
        token_usage: Option<TokenUsage>,
        reason: Seq<char>,
        kind: IncompleteKind,
    },
}

impl View for ResponseEvent {
    type V = EventView;

    open spec fn view(&self) -> EventView {
        match *self {
            ResponseEvent::Created { response_id } => EventView::Created {
                response_id: optional_text(response_id),
            },
            ResponseEvent::ServerModel(model) => EventView::ServerModel(model@),
            ResponseEvent::OutputItemAdded(item) => EventView::OutputItemAdded(item@),
            ResponseEvent::OutputItemDone(item) => EventView::OutputItemDone(item@),
            ResponseEvent::OutputTextDelta(text) => EventView::OutputTextDelta(text@),
            ResponseEvent::Completed { response_id, token_usage, usage_metadata, end_turn } => {
                EventView::Completed {
                    response_id: response_id@,
                    token_usage,
                    usage_metadata: match usage_metadata {
                        Some(metadata) => Some(metadata@),
                        None => None,
                    },
                    end_turn,
                }
            },
            ResponseEvent::Incomplete { response_id, token_usage, reason, kind } => EventView::Incomplete {
                response_id: response_id@,
                token_usage,
                reason: reason@,
                kind,
            },
        }
    }
}

} // verus!
