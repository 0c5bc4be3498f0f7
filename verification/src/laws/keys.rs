//! What holds of the names under which tools are advertised, known and called.

use vstd::prelude::*;

use crate::error::ErrorView;
use crate::history::{byte_count, call_arguments, declares_tools, string_view, HistoryView};
use crate::json::JsonView;
use crate::laws::batches::calls_of;
use crate::laws::history::{bodies_carry_their_content, lemma_kinds, reading_goes_on};
use crate::laws::repeats::{calls_and_results_stay, is_made};
use crate::laws::tools::{declared_tools_are_consistent, every_alias_is_a_wire_name};
use crate::message::{calls_json, MessageView, WireCallView};
use crate::request::{
    declared_view, definitions_json, encode_view, is_custom, messages_json, opened,
    DeclaredView, DefinitionView,
};
use crate::tools::{alias, ToolView, MAX_NAME};

verus! {

/// Whether a specification in that namespace is one of that tool.
pub open spec fn specifies(namespace: Option<Seq<char>>, spec: JsonView, tool: ToolView) -> bool {
    &&& is_custom(spec) matches Ok(custom)
    &&& custom == tool.custom
    &&& string_view(spec, "name"@) matches Ok(name)
    &&& name == tool.name
    &&& tool.namespace == namespace
}

/// Whether an entry of a list of tools, a tool or a namespace, has that tool.
pub open spec fn lists(entry: JsonView, tool: ToolView) -> bool {
    if entry.field("type"@) == JsonView::Text("namespace"@) {
        string_view(entry, "name"@) matches Ok(namespace) && exists|i: int|
            0 <= i < entry.field("tools"@)->Array_0.len() && specifies(
                Some(namespace),
                #[trigger] entry.field("tools"@)->Array_0[i],
                tool,
            )
    } else {
        specifies(None, entry, tool)
    }
}

/// Whether a list of tools has that tool.
pub open spec fn is_in_list(list: JsonView, tool: ToolView) -> bool {
    list is Array && exists|i: int| 0 <= i < list->Array_0.len() && lists(#[trigger] list->Array_0[i], tool)
}

/// Whether a request declares a tool: in its own list, or in one that its history
/// adds.
pub open spec fn requests_tool(request: JsonView, tool: ToolView) -> bool {
    ||| is_in_list(request.field("tools"@), tool)
    ||| exists|i: int|
        0 <= i < request.field("input"@)->Array_0.len() && declares_tools(
            #[trigger] request.field("input"@)->Array_0[i],
        ) && is_in_list(request.field("input"@)->Array_0[i].field("tools"@), tool)
}

/// Whether the table still has what another one had under a name.
spec fn is_kept(before: Map<Seq<char>, ToolView>, after: Map<Seq<char>, ToolView>, name: Seq<char>) -> bool {
    before.dom().contains(name) && before[name] == after[name]
}

proof fn lemma_declare_all(declared: DeclaredView, namespace: Option<Seq<char>>, specs: Seq<JsonView>)
    ensures
        declared.declare_all(namespace, specs) matches Ok(after) ==> forall|name: Seq<char>| #[trigger]
            after.table.dom().contains(name) ==> is_kept(declared.table, after.table, name) || exists|i: int|
                0 <= i < specs.len() && specifies(namespace, #[trigger] specs[i], after.table[name]),
    decreases specs.len(),
{
    if specs.len() > 0 {
        let rest = specs.drop_last();
        lemma_declare_all(declared, namespace, rest);
        if let Ok(after) = declared.declare_all(namespace, specs) {
            let between = declared.declare_all(namespace, rest)->Ok_0;
            assert forall|name: Seq<char>| #[trigger]
                after.table.dom().contains(name) && !is_kept(declared.table, after.table, name) implies exists|i: int|
                0 <= i < specs.len() && specifies(namespace, #[trigger] specs[i], after.table[name]) by {
                let last = specs.len() - 1;
                if specifies(namespace, specs[last], after.table[name]) {
                } else {
                    assert(is_kept(between.table, after.table, name));
                    let i = choose|i: int|
                        0 <= i < rest.len() && specifies(namespace, #[trigger] rest[i], between.table[name]);
                    assert(specs[i] == rest[i]);
                }
            }
        }
    }
}

proof fn lemma_declare_specs(declared: DeclaredView, specs: Seq<JsonView>)
    ensures
        declared.declare_specs(specs) matches Ok(after) ==> forall|name: Seq<char>| #[trigger]
            after.table.dom().contains(name) ==> is_kept(declared.table, after.table, name) || is_in_list(
                JsonView::Array(specs),
                after.table[name],
            ),
    decreases specs.len(),
{
    if specs.len() > 0 {
        let rest = specs.drop_last();
        lemma_declare_specs(declared, rest);
        if let Ok(after) = declared.declare_specs(specs) {
            let between = declared.declare_specs(rest)->Ok_0;
            let entry = specs.last();
            let last = specs.len() - 1;
            assert forall|name: Seq<char>| #[trigger]
                after.table.dom().contains(name) && !is_kept(declared.table, after.table, name) implies is_in_list(
                JsonView::Array(specs),
                after.table[name],
            ) by {
                if is_kept(between.table, after.table, name) {
                    assert(between.table.dom().contains(name));
                    let i = choose|i: int| 0 <= i < rest.len() && lists(#[trigger] rest[i], between.table[name]);
                    assert(specs[i] == rest[i]);
                    assert(lists(JsonView::Array(specs)->Array_0[i], after.table[name]));
                } else {
                    if entry.field("type"@) == JsonView::Text("namespace"@) {
                        let namespace = string_view(entry, "name"@)->Ok_0;
                        let children = entry.field("tools"@)->Array_0;
                        lemma_declare_all(between, Some(namespace), children);
                        let i = choose|i: int|
                            0 <= i < children.len() && specifies(
                                Some(namespace),
                                #[trigger] children[i],
                                after.table[name],
                            );
                        assert(specifies(Some(namespace), children[i], after.table[name]));
                    }
                    assert(lists(JsonView::Array(specs)->Array_0[last], after.table[name]));
                }
            }
        }
    }
}

/// Whether an item of a history declares that tool.
spec fn item_declares(item: JsonView, tool: ToolView) -> bool {
    declares_tools(item) && is_in_list(item.field("tools"@), tool)
}

proof fn lemma_declare_items(declared: DeclaredView, items: Seq<JsonView>)
    ensures
        declared.declare_items(items) matches Ok(after) ==> forall|name: Seq<char>| #[trigger]
            after.table.dom().contains(name) ==> is_kept(declared.table, after.table, name) || exists|i: int|
                0 <= i < items.len() && item_declares(#[trigger] items[i], after.table[name]),
    decreases items.len(),
{
    if items.len() > 0 {
        let rest = items.drop_last();
        lemma_declare_items(declared, rest);
        if let Ok(after) = declared.declare_items(items) {
            let between = declared.declare_items(rest)->Ok_0;
            let item = items.last();
            let last = items.len() - 1;
            if declares_tools(item) {
                lemma_declare_specs(between, item.field("tools"@)->Array_0);
            }
            assert forall|name: Seq<char>| #[trigger]
                after.table.dom().contains(name) && !is_kept(declared.table, after.table, name) implies exists|i: int|
                0 <= i < items.len() && item_declares(#[trigger] items[i], after.table[name]) by {
                if is_kept(between.table, after.table, name) {
                    assert(between.table.dom().contains(name));
                    let i = choose|i: int|
                        0 <= i < rest.len() && item_declares(#[trigger] rest[i], between.table[name]);
                    assert(items[i] == rest[i]);
                } else {
                    assert(item_declares(items[last], after.table[name]));
                }
            }
        }
    }
}

proof fn lemma_requested(request: JsonView)
    ensures
        declared_view(request) matches Ok(declared) ==> forall|name: Seq<char>| #[trigger]
            declared.table.dom().contains(name) ==> requests_tool(request, declared.table[name]),
{
    if let Ok(declared) = declared_view(request) {
        let none = DeclaredView::none();
        let listed = match request.field("tools"@) {
            JsonView::Array(specs) => none.declare_specs(specs)->Ok_0,
            _ => none,
        };
        let items = request.field("input"@)->Array_0;
        if let JsonView::Array(specs) = request.field("tools"@) {
            lemma_declare_specs(none, specs);
        }
        lemma_declare_items(listed, items);
        assert forall|name: Seq<char>| #[trigger] declared.table.dom().contains(name) implies requests_tool(
            request,
            declared.table[name],
        ) by {
            if is_kept(listed.table, declared.table, name) {
                assert(listed.table.dom().contains(name));
            } else {
                let i = choose|i: int|
                    0 <= i < items.len() && item_declares(#[trigger] items[i], declared.table[name]);
                assert(declares_tools(request.field("input"@)->Array_0[i]));
            }
        }
    }
}

/// The name of a tool in a body.
pub open spec fn advertised_name(tool: JsonView) -> JsonView {
    tool.field("function"@).field("name"@)
}

proof fn lemma_definition_name(definition: DefinitionView)
    ensures
        advertised_name(definition.json()) == JsonView::Text(definition.name),
{
    reveal_strlit("type");
    reveal_strlit("function");
    reveal_strlit("name");
    reveal_strlit("description");
    reveal_strlit("parameters");
    assert("type"@.len() == 4 && "function"@.len() == 8);
    assert("name"@.len() == 4 && "description"@.len() == 11 && "parameters"@.len() == 10);
}

/// A tool is known exactly under the names that the body advertises, none of them
/// longer than 64 bytes. And it is one that the request declares: what its history
/// calls makes nothing known.
pub proof fn tools_are_known_as_advertised(request: JsonView)
    ensures
        encode_view(request) matches Ok((body, tools)) ==> {
            let list = body.field("tools"@)->Array_0;
            &&& forall|name: Seq<char>| #[trigger]
                tools.dom().contains(name) <==> exists|i: int|
                    0 <= i < list.len() && advertised_name(#[trigger] list[i]) == JsonView::Text(name)
            &&& forall|name: Seq<char>| #[trigger]
                tools.dom().contains(name) ==> {
                    &&& byte_count(name) <= MAX_NAME
                    &&& alias(tools[name]) == name
                    &&& requests_tool(request, tools[name])
                }
        },
{
    if let Ok((body, tools)) = encode_view(request) {
        let declared = declared_view(request)->Ok_0;
        let list = body.field("tools"@)->Array_0;
        bodies_carry_their_content(request);
        declared_tools_are_consistent(request);
        lemma_requested(request);
        assert(list == definitions_json(declared.definitions));
        assert forall|i: int| 0 <= i < list.len() implies advertised_name(#[trigger] list[i]) == JsonView::Text(
            declared.definitions[i].name,
        ) by {
            lemma_definition_name(declared.definitions[i]);
        }
        assert forall|name: Seq<char>| #[trigger] tools.dom().contains(name) <==> exists|i: int|
            0 <= i < list.len() && advertised_name(#[trigger] list[i]) == JsonView::Text(name) by {
            if tools.dom().contains(name) {
                let i = choose|i: int|
                    0 <= i < declared.definitions.len() && (#[trigger] declared.definitions[i]).name == name;
                assert(advertised_name(list[i]) == JsonView::Text(name));
            }
            if exists|i: int| 0 <= i < list.len() && advertised_name(#[trigger] list[i]) == JsonView::Text(name) {
                let i = choose|i: int|
                    0 <= i < list.len() && advertised_name(#[trigger] list[i]) == JsonView::Text(name);
                assert(declared.definitions[i].name == name);
            }
        }
        assert forall|name: Seq<char>| #[trigger] tools.dom().contains(name) implies byte_count(name) <= MAX_NAME by {
            every_alias_is_a_wire_name(tools[name]);
        }
    }
}

/// Whether an item of a history is a call of that tool.
pub open spec fn calls_tool(item: JsonView, tool: ToolView) -> bool {
    &&& item.field("type"@) == JsonView::Text(
        if tool.custom {
            "custom_tool_call"@
        } else {
            "function_call"@
        },
    )
    &&& item.field("name"@) == JsonView::Text(tool.name)
    &&& item.field("namespace"@).text() == tool.namespace
}

/// Whether a message in a body makes a call under that name and ID, with those
/// arguments.
pub open spec fn sends_call(message: JsonView, call: WireCallView) -> bool {
    message.field("tool_calls"@) is Array && message.field("tool_calls"@)->Array_0.contains(call.json())
}

proof fn lemma_message_calls(message: MessageView, call: WireCallView)
    requires
        calls_of(message).contains(call),
    ensures
        sends_call(message.json(), call),
{
    let calls = calls_of(message);
    let i = choose|i: int| 0 <= i < calls.len() && calls[i] == call;
    assert(calls_json(calls)[i] == call.json());
    assert(message.json().field("tool_calls"@) == JsonView::Array(calls_json(calls)));
}

/// A call of the history to an advertised tool is sent under the very name that it is
/// advertised under, and with its ID and arguments.
pub proof fn calls_are_sent_as_advertised(request: JsonView, i: int, key: Seq<char>)
    requires
        encode_view(request) is Ok,
        0 <= i < request.field("input"@)->Array_0.len(),
        encode_view(request)->Ok_0.1.dom().contains(key),
        calls_tool(request.field("input"@)->Array_0[i], encode_view(request)->Ok_0.1[key]),
    ensures
        ({
            let (body, tools) = encode_view(request)->Ok_0;
            let item = request.field("input"@)->Array_0[i];
            let messages = body.field("messages"@)->Array_0;
            &&& string_view(item, "call_id"@) matches Ok(id)
            &&& call_arguments(item, tools[key].custom) matches Ok(arguments)
            &&& exists|j: int|
                0 <= j < messages.len() && sends_call(
                    #[trigger] messages[j],
                    WireCallView { id, name: key, arguments },
                )
        }),
{
    let (body, tools) = encode_view(request)->Ok_0;
    let items = request.field("input"@)->Array_0;
    let item = items[i];
    let tool = tools[key];
    let start = opened(request, tools);
    let first = items.take(i + 1);
    let rest = items.skip(i + 1);
    bodies_carry_their_content(request);
    declared_tools_are_consistent(request);
    assert(items =~= first + rest);
    reading_goes_on(start, first, rest);
    assert(first.drop_last() =~= items.take(i));
    let before = start.read_all(items.take(i))->Ok_0;
    let between = start.read_all(first)->Ok_0;
    let after = start.read_all(items)->Ok_0;
    assert(before.read(item) == Ok::<HistoryView, ErrorView>(between));
    lemma_kinds();
    let call = WireCallView {
        id: string_view(item, "call_id"@)->Ok_0,
        name: key,
        arguments: call_arguments(item, tool.custom)->Ok_0,
    };
    calls_and_results_stay(start, items.take(i));
    calls_and_results_stay(start, first);
    calls_and_results_stay(between, rest);
    let last = between.messages.len() - 1;
    assert(calls_of(between.messages[last]).last() == call);
    assert(calls_of(between.messages[last]).contains(call));
    assert(is_made(between.messages, call));
    assert(is_made(after.messages, call));
    let j = choose|j: int| 0 <= j < after.messages.len() && calls_of(#[trigger] after.messages[j]).contains(call);
    lemma_message_calls(after.messages[j], call);
    assert(messages_json(after.messages)[j] == after.messages[j].json());
    assert(sends_call(body.field("messages"@)->Array_0[j], call));
}

} // verus!
