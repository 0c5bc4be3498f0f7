//! The complete tool calls of a completion as items for the agent to run.

use vstd::prelude::*;

use crate::calls::{names_view, Call, CallView, Calls, MAX_CALLS};
use crate::error::{invalid, refusal, ApiError, ErrorView};
use crate::event::{EventView, ItemView, ResponseEvent, ResponseItem};
use crate::json::{Json, JsonView};
use crate::text::{copy_optional_text, same_text};
use crate::tools::{Tool, ToolTable, ToolView};
use crate::views::{group_views, views};
use crate::wire::{parse, parsed};

verus! {

broadcast use group_views;

/// A reading of a call's name that is an advertised name.
pub open spec fn is_advertised(names: Set<Seq<char>>, tools: Map<Seq<char>, ToolView>, name: Seq<char>) -> bool {
    names.contains(name) && tools.dom().contains(name)
}

/// The tool that a call names: the only one that its name can be read as.
pub open spec fn resolved(names: Set<Seq<char>>, tools: Map<Seq<char>, ToolView>) -> Result<ToolView, ErrorView> {
    if !exists|name: Seq<char>| is_advertised(names, tools, name) {
        Err(refusal("upstream requested an unadvertised tool"@))
    } else if exists|a: Seq<char>, b: Seq<char>| #[trigger]
        is_advertised(names, tools, a) && #[trigger] is_advertised(names, tools, b) && a != b {
        Err(refusal("ambiguous repeated tool name"@))
    } else {
        Ok(tools[choose|name: Seq<char>| is_advertised(names, tools, name)])
    }
}

/// The tool that a call names.
pub fn resolve<'a>(names: &Vec<String>, tools: &'a ToolTable) -> (tool: Result<&'a Tool, ApiError>)
    requires
        tools.wf(),
    ensures
        match tool {
            Ok(tool) => resolved(names_view(names@), tools@) == Ok::<ToolView, ErrorView>(tool@),
            Err(error) => resolved(names_view(names@), tools@) == Err::<ToolView, ErrorView>(error@),
        },
{
    let ghost readings = names_view(names@);
    let mut found: Option<usize> = None;
    let mut i: usize = 0;
    while i < names.len()
        invariant
            i <= names.len(),
            readings == names_view(names@),
            tools.wf(),
            match found {
                Some(k) => k < i && is_advertised(readings, tools@, names[k as int]@) && forall|j: int|
                    0 <= j < i && tools@.dom().contains((#[trigger] names[j])@) ==> names[j]@ == names[k as int]@,
                None => forall|j: int| 0 <= j < i ==> !tools@.dom().contains((#[trigger] names[j])@),
            },
        decreases names.len() - i,
    {
        if tools.get(names[i].as_str()).is_some() {
            proof {
                assert(views(names@)[i as int] == names[i as int]@);
                assert(is_advertised(readings, tools@, names[i as int]@));
            }
            match found {
                Some(k) => {
                    if !same_text(names[k].as_str(), names[i].as_str()) {
                        return Err(invalid("ambiguous repeated tool name"));
                    }
                },
                None => {
                    found = Some(i);
                },
            }
        }
        i = i + 1;
    }
    proof {
        assert forall|name: Seq<char>| is_advertised(readings, tools@, name) implies found matches Some(k)
            && name == names[k as int]@ by {
            let j = choose|j: int| 0 <= j < views(names@).len() && views(names@)[j] == name;
            assert(names[j]@ == name);
        }
    }
    match found {
        Some(k) => match tools.get(names[k].as_str()) {
            Some(tool) => Ok(tool),
            None => Err(invalid("upstream requested an unadvertised tool")),
        },
        None => Err(invalid("upstream requested an unadvertised tool")),
    }
}

/// The item for a call of that tool, where `arguments` is what its arguments text
/// reads as.
pub open spec fn call_item_view(call: CallView, tool: ToolView, arguments: Option<JsonView>) -> Result<
    ItemView,
    ErrorView,
> {
    match arguments {
        None => Err(refusal("invalid tool argument JSON"@)),
        Some(arguments) => if tool.custom {
            match arguments.field("input"@).text() {
                Some(input) => Ok(
                    ItemView::CustomToolCall {
                        call_id: call.id,
                        name: tool.name,
                        namespace: tool.namespace,
                        input,
                    },
                ),
                None => Err(refusal("custom tool requires a string input"@)),
            }
        } else {
            Ok(
                ItemView::FunctionCall {
                    call_id: call.id,
                    name: tool.name,
                    namespace: tool.namespace,
                    arguments: call.arguments,
                },
            )
        },
    }
}

/// The content of a JSON value that may be absent.
pub open spec fn optional_json(json: Option<Json>) -> Option<JsonView> {
    match json {
        Some(json) => Some(json@),
        None => None,
    }
}

/// The item for a call of that tool, where `arguments` is what its arguments text
/// reads as.
pub fn call_item(call: &Call, tool: &Tool, arguments: Option<Json>) -> (item: Result<ResponseItem, ApiError>)
    ensures
        match item {
            Ok(item) => call_item_view(call@, tool@, optional_json(arguments)) == Ok::<ItemView, ErrorView>(
                item@,
            ),
            Err(error) => call_item_view(call@, tool@, optional_json(arguments)) == Err::<
                ItemView,
                ErrorView,
            >(error@),
        },
{
    let arguments = match arguments {
        Some(arguments) => arguments,
        None => return Err(invalid("invalid tool argument JSON")),
    };
    if tool.custom {
        match arguments.field("input").as_str() {
            Some(input) => Ok(
                ResponseItem::CustomToolCall {
                    call_id: call.id.clone(),
                    name: tool.name.clone(),
                    namespace: copy_optional_text(&tool.namespace),
                    input: input.to_owned(),
                },
            ),
            None => Err(invalid("custom tool requires a string input")),
        }
    } else {
        Ok(
            ResponseItem::FunctionCall {
                call_id: call.id.clone(),
                name: tool.name.clone(),
                namespace: copy_optional_text(&tool.namespace),
                arguments: call.arguments.clone(),
            },
        )
    }
}

/// Whether an earlier call has the ID of this one.
pub open spec fn repeats_id(calls: Map<int, CallView>, index: int) -> bool {
    exists|other: int| 0 <= other < index && #[trigger] calls.dom().contains(other) && calls[other].id
        == calls[index].id
}

/// The item for the call of that index.
pub open spec fn dispatched_call(
    calls: Map<int, CallView>,
    index: int,
    tools: Map<Seq<char>, ToolView>,
) -> Result<ItemView, ErrorView> {
    let call = calls[index];
    if call.id.len() == 0 || repeats_id(calls, index) {
        Err(refusal("missing or duplicate tool call ID"@))
    } else {
        match resolved(call.names, tools) {
            Err(error) => Err(error),
            Ok(tool) => call_item_view(call, tool, parsed(call.arguments)),
        }
    }
}

/// The events for the calls with indexes below `count`, in the order of the indexes.
pub open spec fn dispatched(calls: Map<int, CallView>, count: nat, tools: Map<Seq<char>, ToolView>) -> Result<
    Seq<EventView>,
    ErrorView,
>
    decreases count,
{
    if count == 0 {
        Ok(Seq::empty())
    } else {
        let index = count - 1;
        match dispatched(calls, index as nat, tools) {
            Err(error) => Err(error),
            Ok(events) => if calls.dom().contains(index) {
                match dispatched_call(calls, index, tools) {
                    Err(error) => Err(error),
                    Ok(item) => Ok(
                        events.push(EventView::OutputItemAdded(item)).push(
                            EventView::OutputItemDone(item),
                        ),
                    ),
                }
            } else {
                Ok(events)
            },
        }
    }
}

/// The first call that is refused decides.
proof fn lemma_dispatch_refused(
    calls: Map<int, CallView>,
    count: nat,
    total: nat,
    tools: Map<Seq<char>, ToolView>,
)
    requires
        count <= total,
        dispatched(calls, count, tools) is Err,
    ensures
        dispatched(calls, total, tools) == dispatched(calls, count, tools),
    decreases total - count,
{
    if count < total {
        lemma_dispatch_refused(calls, count, (total - 1) as nat, tools);
    }
}

fn is_repeated(calls: &Calls, index: usize, id: &str) -> (repeated: bool)
    ensures
        repeated == exists|other: int|
            0 <= other < index && #[trigger] calls@.dom().contains(other) && calls@[other].id == id@,
{
    let mut i: usize = 0;
    while i < index
        invariant
            i <= index,
            forall|j: int| 0 <= j < i && #[trigger] calls@.dom().contains(j) ==> calls@[j].id != id@,
        decreases index - i,
    {
        if let Some(call) = calls.get(i) {
            if same_text(call.id.as_str(), id) {
                return true;
            }
        }
        i = i + 1;
    }
    false
}

/// The events for all calls, in the order of their indexes.
pub fn dispatch(calls: &Calls, tools: &ToolTable) -> (events: Result<Vec<ResponseEvent>, ApiError>)
    requires
        tools.wf(),
    ensures
        match events {
            Ok(events) => dispatched(calls@, MAX_CALLS as nat, tools@) == Ok::<Seq<EventView>, ErrorView>(
                views(events@),
            ),
            Err(error) => dispatched(calls@, MAX_CALLS as nat, tools@) == Err::<Seq<EventView>, ErrorView>(
                error@,
            ),
        },
{
    let mut events: Vec<ResponseEvent> = Vec::new();
    let mut i: usize = 0;
    while i < MAX_CALLS
        invariant
            i <= MAX_CALLS,
            tools.wf(),
            dispatched(calls@, i as nat, tools@) == Ok::<Seq<EventView>, ErrorView>(views(events@)),
        decreases MAX_CALLS - i,
    {
        proof {
            if dispatched(calls@, (i + 1) as nat, tools@) is Err {
                lemma_dispatch_refused(calls@, (i + 1) as nat, MAX_CALLS as nat, tools@);
            }
        }
        if let Some(call) = calls.get(i) {
            if call.id.as_str().is_empty() || is_repeated(calls, i, call.id.as_str()) {
                return Err(invalid("missing or duplicate tool call ID"));
            }
            let tool = resolve(&call.names, tools)?;
            let item = call_item(call, tool, parse(call.arguments.as_str()))?;
            events.push(ResponseEvent::OutputItemAdded(item.clone()));
            events.push(ResponseEvent::OutputItemDone(item));
        }
        i = i + 1;
    }
    Ok(events)
}

} // verus!
