//! How an item is written down for the next request.

use vstd::prelude::*;

use crate::event::ItemView;
use crate::json::JsonView;
use crate::laws::chunks::list_in;

verus! {

/// A text that may be absent, as a value.
pub open spec fn value_of(text: Option<Seq<char>>) -> JsonView {
    match text {
        Some(text) => JsonView::Text(text),
        None => JsonView::Null,
    }
}

/// Whether a part of a content has that text, and is of that kind.
pub open spec fn is_part(part: JsonView, kind: Seq<char>, text: Seq<char>) -> bool {
    &&& part.field("type"@) == JsonView::Text(kind)
    &&& part.field("text"@) == JsonView::Text(text)
}

/// Whether a value is an item, written down: what kind it is, and all that it holds.
pub open spec fn is_record(value: JsonView, item: ItemView) -> bool {
    match item {
        ItemView::Message { id, role, content } => {
            let parts = list_in(value.field("content"@));
            let kind = if role == "assistant"@ {
                "output_text"@
            } else {
                "input_text"@
            };
            &&& value.field("type"@) == JsonView::Text("message"@)
            &&& value.field("id"@) == value_of(id)
            &&& value.field("role"@) == JsonView::Text(role)
            &&& parts.len() == content.len()
            &&& forall|i: int| 0 <= i < parts.len() ==> is_part(#[trigger] parts[i], kind, content[i])
        },
        ItemView::Reasoning { id, content } => {
            let parts = list_in(value.field("content"@));
            &&& value.field("type"@) == JsonView::Text("reasoning"@)
            &&& value.field("id"@) == JsonView::Text(id)
            &&& value.field("summary"@) is Array
            &&& list_in(value.field("summary"@)).len() == 0
            &&& parts.len() == 1
            &&& is_part(parts[0], "reasoning_text"@, content)
        },
        ItemView::FunctionCall { call_id, name, namespace, arguments } => {
            &&& value.field("type"@) == JsonView::Text("function_call"@)
            &&& value.field("call_id"@) == JsonView::Text(call_id)
            &&& value.field("name"@) == JsonView::Text(name)
            &&& value.field("namespace"@) == value_of(namespace)
            &&& value.field("arguments"@) == JsonView::Text(arguments)
        },
        ItemView::CustomToolCall { call_id, name, namespace, input } => {
            &&& value.field("type"@) == JsonView::Text("custom_tool_call"@)
            &&& value.field("call_id"@) == JsonView::Text(call_id)
            &&& value.field("name"@) == JsonView::Text(name)
            &&& value.field("namespace"@) == value_of(namespace)
            &&& value.field("input"@) == JsonView::Text(input)
        },
        ItemView::FunctionCallOutput { call_id, output } => {
            &&& value.field("type"@) == JsonView::Text("function_call_output"@)
            &&& value.field("call_id"@) == value_of(call_id)
            &&& value.field("output"@) == JsonView::Text(output)
        },
        ItemView::CustomToolCallOutput { call_id, output } => {
            &&& value.field("type"@) == JsonView::Text("custom_tool_call_output"@)
            &&& value.field("call_id"@) == JsonView::Text(call_id)
            &&& value.field("output"@) == JsonView::Text(output)
        },
    }
}

/// An item is written down whole.
pub proof fn items_are_written_down(item: ItemView)
    ensures
        is_record(item.json(), item),
{
    reveal_strlit("type");
    reveal_strlit("id");
    reveal_strlit("role");
    reveal_strlit("content");
    reveal_strlit("summary");
    reveal_strlit("call_id");
    reveal_strlit("name");
    reveal_strlit("namespace");
    reveal_strlit("arguments");
    reveal_strlit("input");
    reveal_strlit("output");
    reveal_strlit("text");
    reveal_strlit("encrypted_function_args");
    assert("type"@.len() == 4 && "id"@.len() == 2 && "role"@.len() == 4 && "name"@.len() == 4);
    assert("content"@.len() == 7 && "summary"@.len() == 7 && "call_id"@.len() == 7);
    assert("namespace"@.len() == 9 && "arguments"@.len() == 9);
    assert("input"@.len() == 5 && "output"@.len() == 6 && "text"@.len() == 4);
    assert("encrypted_function_args"@.len() == 23);
    assert("type"@[0] == 't' && "role"@[0] == 'r' && "name"@[0] == 'n');
    assert("text"@[1] == 'e' && "type"@[1] == 'y');
    assert("content"@[1] == 'o' && "call_id"@[1] == 'a' && "summary"@[0] == 's' && "content"@[0] == 'c');
    assert("namespace"@[0] == 'n' && "arguments"@[0] == 'a');
    if let ItemView::Message { id, role, content } = item {
        let parts = list_in(item.json().field("content"@));
        let kind = if role == "assistant"@ {
            "output_text"@
        } else {
            "input_text"@
        };
        assert forall|i: int| 0 <= i < parts.len() implies is_part(#[trigger] parts[i], kind, content[i]) by {}
    }
}

} // verus!
