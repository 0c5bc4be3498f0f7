//! Which requests are encoded and which are refused.

use vstd::prelude::*;

use crate::history::{
    call_arguments, call_position, is_text_part, parts_view, text_view, HistoryView,
};
use crate::json::JsonView;
use crate::laws::advertised::{
    added_namespaces_hold, all_offers, are_possible, is_offered, namespaces_hold, offers_are_accepted, Offer,
};
use crate::laws::batches::{call_ids, is_batched, lemma_position, lemma_read_batched};
use crate::laws::chunks::{list_in, text_in};
use crate::laws::conversation::{is_called, is_result, is_said, tool_called, words};
use crate::laws::history::{bodies_carry_their_content, lemma_kinds};
use crate::message::WireCallView;
use crate::request::{
    budget_view, declared_view, effort_view, encode_view, max_tokens_view, opened, settings_view,
    tool_choice_view,
};
use crate::tools::{alias, flat_name, registered, registration, ToolView};

verus! {

/// Whether a budget under that name is a positive integer, or not given.
pub open spec fn is_budget(request: JsonView, name: Seq<char>) -> bool {
    request.has(name) ==> (request.field(name) matches JsonView::Integer(n) && 0 < n <= u64::MAX)
}

/// Whether two budgets agree, where both are given.
pub open spec fn budgets_agree(request: JsonView, a: Seq<char>, b: Seq<char>) -> bool {
    request.has(a) && request.has(b) ==> request.field(a) == request.field(b)
}

/// Whether a request asks for what can be asked for, besides its messages and tools.
pub open spec fn asks_for_what_there_is(request: JsonView) -> bool {
    let choice = request.field("tool_choice"@);
    let effort = request.field("reasoning"@).field("effort"@);
    &&& request.field("model"@) is Text
    &&& request.field("text"@).field("format"@) is Null
    &&& choice is Null || choice == JsonView::Text("auto"@) || choice == JsonView::Text("none"@) || choice
        == JsonView::Text("required"@)
    &&& effort is Text ==> effort == JsonView::Text("high"@) || effort == JsonView::Text("max"@)
    &&& is_budget(request, "max_output_tokens"@)
    &&& is_budget(request, "max_completion_tokens"@)
    &&& is_budget(request, "max_tokens"@)
    &&& budgets_agree(request, "max_output_tokens"@, "max_completion_tokens"@)
    &&& budgets_agree(request, "max_output_tokens"@, "max_tokens"@)
    &&& budgets_agree(request, "max_completion_tokens"@, "max_tokens"@)
}

proof fn lemma_settings(request: JsonView)
    ensures
        settings_view(request) is Ok <==> asks_for_what_there_is(request),
{
    let first = budget_view(request, "max_output_tokens"@);
    let second = budget_view(request, "max_completion_tokens"@);
    let third = budget_view(request, "max_tokens"@);
    assert(first is Ok <==> is_budget(request, "max_output_tokens"@));
    assert(second is Ok <==> is_budget(request, "max_completion_tokens"@));
    assert(third is Ok <==> is_budget(request, "max_tokens"@));
    assert(tool_choice_view(request) is Ok <==> {
        let choice = request.field("tool_choice"@);
        choice is Null || choice == JsonView::Text("auto"@) || choice == JsonView::Text("none"@) || choice
            == JsonView::Text("required"@)
    });
    assert(effort_view(request) is Ok <==> {
        let effort = request.field("reasoning"@).field("effort"@);
        effort is Text ==> effort == JsonView::Text("high"@) || effort == JsonView::Text("max"@)
    });
}

/// Whether a body may have a field of that name.
pub open spec fn is_body_field(name: Seq<char>) -> bool {
    ||| name == "model"@
    ||| name == "messages"@
    ||| name == "tools"@
    ||| name == "tool_choice"@
    ||| name == "stream"@
    ||| name == "stream_options"@
    ||| name == "reasoning_effort"@
    ||| name == "thinking"@
    ||| name == "max_tokens"@
}

/// What a request asks for is asked for, as it is asked for. Where it says nothing,
/// the model may choose its tools and thinks hard, and has no budget. The answer is
/// streamed, with its usage.
pub proof fn settings_are_carried(request: JsonView)
    ensures
        encode_view(request) matches Ok((body, _)) ==> {
            let effort = request.field("reasoning"@).field("effort"@);
            &&& body.field("model"@) == request.field("model"@)
            &&& body.field("tool_choice"@) == if request.field("tool_choice"@) is Null {
                JsonView::Text("auto"@)
            } else {
                request.field("tool_choice"@)
            }
            &&& body.field("reasoning_effort"@) == if effort is Text {
                effort
            } else {
                JsonView::Text("high"@)
            }
            &&& request.has("max_output_tokens"@) ==> body.field("max_tokens"@) == request.field(
                "max_output_tokens"@,
            )
            &&& request.has("max_completion_tokens"@) ==> body.field("max_tokens"@) == request.field(
                "max_completion_tokens"@,
            )
            &&& request.has("max_tokens"@) ==> body.field("max_tokens"@) == request.field("max_tokens"@)
            &&& !request.has("max_output_tokens"@) && !request.has("max_completion_tokens"@) && !request.has(
                "max_tokens"@,
            ) ==> !body.has("max_tokens"@)
            &&& body.field("stream"@) == JsonView::Bool(true)
            &&& body.field("stream_options"@).field("include_usage"@) == JsonView::Bool(true)
            &&& body.field("thinking"@).field("type"@) == JsonView::Text("enabled"@)
            &&& forall|name: Seq<char>| #[trigger] body.has(name) ==> is_body_field(name)
        },
{
    if let Ok((body, _)) = encode_view(request) {
        bodies_carry_their_content(request);
        lemma_settings(request);
        reveal_strlit("model");
        reveal_strlit("messages");
        reveal_strlit("tools");
        reveal_strlit("tool_choice");
        reveal_strlit("stream");
        reveal_strlit("stream_options");
        reveal_strlit("reasoning_effort");
        reveal_strlit("thinking");
        reveal_strlit("max_tokens");
        assert("model"@.len() == 5 && "messages"@.len() == 8 && "tools"@.len() == 5);
        assert("tool_choice"@.len() == 11 && "stream"@.len() == 6 && "stream_options"@.len() == 14);
        assert("reasoning_effort"@.len() == 16 && "thinking"@.len() == 8 && "max_tokens"@.len() == 10);
        assert("model"@[0] != "tools"@[0]);
        assert("messages"@[0] != "thinking"@[0]);
        assert(max_tokens_view(request) is Ok);
    }
}

/// Whether the words of a content can be read: it is a text, or a list of parts that
/// each have one.
pub open spec fn is_readable(content: JsonView) -> bool {
    match content {
        JsonView::Text(_) => true,
        JsonView::Array(parts) => forall|i: int| 0 <= i < parts.len() ==> is_written(#[trigger] parts[i]),
        _ => false,
    }
}

/// Whether a part of a content has words.
pub open spec fn is_written(part: JsonView) -> bool {
    let kind = part.field("type"@);
    &&& part.field("text"@) is Text
    &&& {
        ||| kind == JsonView::Text("input_text"@)
        ||| kind == JsonView::Text("output_text"@)
        ||| kind == JsonView::Text("text"@)
        ||| kind == JsonView::Text("reasoning_text"@)
        ||| kind == JsonView::Text("summary_text"@)
    }
}

/// A content is read exactly where it is readable.
pub proof fn lemma_readable(content: JsonView)
    ensures
        text_view(content) is Ok <==> is_readable(content),
        text_view(content) matches Ok(text) ==> text == words(content),
{
    crate::laws::conversation::lemma_words(content);
    if let JsonView::Array(parts) = content {
        lemma_parts(parts);
    }
}

proof fn lemma_parts(parts: Seq<JsonView>)
    ensures
        parts_view(parts) is Ok <==> forall|i: int| 0 <= i < parts.len() ==> is_written(#[trigger] parts[i]),
    decreases parts.len(),
{
    if parts.len() > 0 {
        let rest = parts.drop_last();
        lemma_parts(rest);
        assert(parts[parts.len() - 1] == parts.last());
        assert forall|i: int| 0 <= i < rest.len() implies rest[i] == #[trigger] parts[i] by {}
        if forall|i: int| 0 <= i < parts.len() ==> is_written(#[trigger] parts[i]) {
            assert forall|i: int| 0 <= i < rest.len() implies is_written(#[trigger] rest[i]) by {
                assert(is_written(parts[i]));
            }
        }
        assert(is_written(parts.last()) <==> is_text_part(parts.last()) && parts.last().field("text"@) is Text);
    }
}

/// How far a reader of a history has come: the tools that are known, the calls that
/// wait for results, whether results have begun to come in, and whether a thought
/// waits for what it leads to.
pub struct Reader {
    pub known: Set<ToolView>,
    pub waiting: Set<Seq<char>>,
    pub answering: bool,
    pub thinking: bool,
}

impl Reader {
    /// Whether a tool can be called: it has a name, and no other has its name on the
    /// wire.
    pub open spec fn can_know(self, tool: ToolView) -> bool {
        &&& tool.namespace is Some || tool.name.len() > 0
        &&& forall|other: ToolView| #[trigger] self.known.contains(other) && alias(other) == alias(tool) ==> other == tool
    }

    /// The reader after an item, unless the item is refused.
    pub open spec fn next(self, item: JsonView) -> Option<Reader> {
        let kind = item.field("type"@);
        let role = item.field("role"@);
        let content = item.field("content"@);
        if kind == JsonView::Text("reasoning"@) {
            if !(item.field("encrypted_content"@) is Null) {
                None
            } else if content is Null {
                if is_readable(item.field("summary"@)) {
                    Some(self)
                } else {
                    None
                }
            } else if is_readable(content) {
                Some(Reader { thinking: self.thinking || words(content).len() > 0, ..self })
            } else {
                None
            }
        } else if is_said(item) {
            if is_readable(content) {
                Some(Reader { thinking: false, ..self })
            } else {
                None
            }
        } else if kind == JsonView::Text("agent_message"@) || (kind == JsonView::Text("message"@) && role
            == JsonView::Text("user"@)) {
            if is_readable(content) && self.waiting == Set::<Seq<char>>::empty() {
                Some(Reader { thinking: false, ..self })
            } else {
                None
            }
        } else if kind == JsonView::Text("message"@) && (role == JsonView::Text("system"@) || role == JsonView::Text(
            "developer"@,
        )) {
            if is_readable(content) && self.waiting == Set::<Seq<char>>::empty() {
                Some(self)
            } else {
                None
            }
        } else if is_called(item) {
            let tool = tool_called(item);
            let id = text_in(item.field("call_id"@));
            let sealed = item.field("encrypted_function_args"@);
            if {
                &&& list_in(sealed).len() == 0
                &&& item.field("name"@) is Text
                &&& self.can_know(tool)
                &&& if tool.custom {
                    item.field("input"@) is Text
                } else {
                    item.field("arguments"@) is Text
                }
                &&& item.field("call_id"@) is Text
                &&& self.waiting == Set::<Seq<char>>::empty() || !self.answering
                &&& !self.waiting.contains(id)
            } {
                Some(
                    Reader {
                        known: self.known.insert(tool),
                        waiting: self.waiting.insert(id),
                        answering: false,
                        thinking: false,
                    },
                )
            } else {
                None
            }
        } else if is_result(item) {
            let id = text_in(item.field("call_id"@));
            if item.field("call_id"@) is Text && is_readable(item.field("output"@)) && self.waiting.contains(id) {
                Some(Reader { waiting: self.waiting.remove(id), answering: true, ..self })
            } else {
                None
            }
        } else if kind == JsonView::Text("additional_tools"@) && item.field("tools"@) is Array {
            Some(self)
        } else {
            None
        }
    }

    /// The reader after items, unless one is refused.
    pub open spec fn after(self, items: Seq<JsonView>) -> Option<Reader>
        decreases items.len(),
    {
        if items.len() == 0 {
            Some(self)
        } else {
            match self.after(items.drop_last()) {
                None => None,
                Some(reader) => reader.next(items.last()),
            }
        }
    }
}

/// The tools that are offered.
pub open spec fn tools_offered(offers: Seq<Offer>) -> Set<ToolView> {
    Set::new(|tool: ToolView| exists|j: int| 0 <= j < offers.len() && (#[trigger] offers[j]).tool() == tool)
}

/// Whether the items of a request make a history: each follows what came before it, no
/// call is left without its result, and no thought without what it leads to.
pub open spec fn makes_history(request: JsonView) -> bool {
    let start = Reader {
        known: tools_offered(all_offers(request)),
        waiting: Set::empty(),
        answering: false,
        thinking: false,
    };
    &&& start.after(list_in(request.field("input"@))) matches Some(end)
    &&& end.waiting == Set::<Seq<char>>::empty()
    &&& !end.thinking
}

/// Whether a reader is where a history is.
spec fn is_at(reader: Reader, history: HistoryView) -> bool {
    &&& is_batched(history)
    &&& forall|id: Seq<char>| #[trigger]
        reader.waiting.contains(id) <==> call_position(history.open, id) is Some
    &&& reader.waiting == Set::<Seq<char>>::empty() <==> history.open.len() == 0
    &&& forall|a: int, b: int|
        0 <= a < b < history.open.len() ==> (#[trigger] history.open[a]).id != (#[trigger] history.open[b]).id
    &&& history.open.len() > 0 ==> (reader.answering <==> !history.assistant_last())
    &&& reader.thinking <==> history.reasoning.len() > 0
    &&& forall|tool: ToolView| #[trigger]
        reader.known.contains(tool) ==> history.table.dom().contains(alias(tool)) && history.table[alias(tool)]
            == tool
    &&& forall|name: Seq<char>| #[trigger]
        history.table.dom().contains(name) ==> reader.known.contains(history.table[name]) && alias(
            history.table[name],
        ) == name
}

proof fn lemma_registration(reader: Reader, history: HistoryView, tool: ToolView)
    requires
        is_at(reader, history),
    ensures
        registration(history.table, tool) is Ok <==> reader.can_know(tool),
        registration(history.table, tool) matches Ok(name) ==> name == alias(tool) && registered(
            history.table,
            tool,
        ) == history.table.insert(name, tool),
{
    reveal_strlit("__");
    assert("__"@.len() == 2);
    assert(flat_name(tool).len() > 0 <==> tool.namespace is Some || tool.name.len() > 0);
    if history.table.dom().contains(alias(tool)) {
        assert(reader.known.contains(history.table[alias(tool)]));
    }
}

proof fn lemma_positions(calls: Seq<WireCallView>, call: WireCallView, id: Seq<char>)
    ensures
        call_position(calls.push(call), id) is Some <==> call_position(calls, id) is Some || call.id == id,
{
    assert(calls.push(call).drop_last() =~= calls);
}

proof fn lemma_removed(calls: Seq<WireCallView>, i: int, id: Seq<char>)
    requires
        0 <= i < calls.len(),
        forall|a: int, b: int| 0 <= a < b < calls.len() ==> (#[trigger] calls[a]).id != (#[trigger] calls[b]).id,
    ensures
        call_position(calls.remove(i), id) is Some <==> call_position(calls, id) is Some && calls[i].id != id,
{
    let rest = calls.remove(i);
    lemma_position(calls, id);
    lemma_position(rest, id);
    if let Some(k) = call_position(rest, id) {
        let j = if k < i {
            k
        } else {
            k + 1
        };
        assert(rest[k] == calls[j]);
        assert(call_ids(calls)[j] == id);
        if j < i {
            assert(calls[j].id != calls[i].id);
        } else {
            assert(calls[i].id != calls[j].id);
        }
    }
    if let Some(k) = call_position(calls, id) {
        if calls[i].id != id {
            let j = if k < i {
                k
            } else {
                k - 1
            };
            assert(rest[j] == calls[k]);
            assert(call_ids(rest)[j] == id);
        }
    }
}

/// The calls that wait are none where no call is open.
proof fn lemma_waiting(waiting: Set<Seq<char>>, open: Seq<WireCallView>)
    requires
        forall|id: Seq<char>| #[trigger] waiting.contains(id) <==> call_position(open, id) is Some,
    ensures
        waiting == Set::<Seq<char>>::empty() <==> open.len() == 0,
{
    if open.len() == 0 {
        assert(waiting =~= Set::empty());
    } else {
        assert(waiting.contains(open.last().id));
    }
}

proof fn lemma_heard(reader: Reader, history: HistoryView, role: Seq<char>, content: Seq<char>)
    requires
        is_at(reader, history),
        role == "user"@ || role == "system"@ || role == "developer"@,
    ensures
        history.hear(role, content) is Ok <==> reader.waiting == Set::<Seq<char>>::empty(),
        history.hear(role, content) matches Ok(after) ==> {
            &&& after.open == history.open
            &&& after.table == history.table
            &&& after.reasoning == if role == "user"@ {
                Seq::empty()
            } else {
                history.reasoning
            }
        },
{
    if history.hear(role, content) is Ok && role == "user"@ && history.reasoning.len() == 0 {
        assert(history.reasoning =~= Seq::empty());
    }
}

proof fn lemma_called(reader: Reader, history: HistoryView, item: JsonView)
    requires
        is_at(reader, history),
        is_called(item),
    ensures
        history.read_call(item) is Ok <==> reader.next(item) is Some,
        history.read_call(item) matches Ok(after) ==> is_batched(after) ==> is_at(
            reader.next(item)->Some_0,
            after,
        ),
{
    lemma_kinds();
    let tool = tool_called(item);
    let custom = tool.custom;
    lemma_registration(reader, history, tool);
    let id = text_in(item.field("call_id"@));
    assert(reader.waiting.contains(id) <==> call_position(history.open, id) is Some);
    assert(call_arguments(item, custom) is Ok <==> if custom {
        item.field("input"@) is Text
    } else {
        item.field("arguments"@) is Text
    });
    assert(item.field("namespace"@).text() == tool.namespace);
    if let Ok(after) = history.read_call(item) {
        let next = reader.next(item)->Some_0;
        let call = after.open.last();
        assert(after.open == history.open.push(call));
        assert(call.id == id);
        assert(after.table == history.table.insert(alias(tool), tool));
        assert forall|other: Seq<char>| #[trigger] next.waiting.contains(other) <==> call_position(
            after.open,
            other,
        ) is Some by {
            lemma_positions(history.open, call, other);
            assert(reader.waiting.contains(other) <==> call_position(history.open, other) is Some);
        }
        lemma_waiting(next.waiting, after.open);
        lemma_position(history.open, id);
        assert forall|a: int, b: int| 0 <= a < b < after.open.len() implies (#[trigger] after.open[a]).id != (
        #[trigger] after.open[b]).id by {
            assert(after.open[a] == history.open[a]);
            if b < history.open.len() {
                assert(after.open[b] == history.open[b]);
            } else {
                assert(call_ids(history.open)[a] == history.open[a].id);
            }
        }
        assert forall|other: ToolView| #[trigger] next.known.contains(other) implies after.table.dom().contains(
            alias(other),
        ) && after.table[alias(other)] == other by {
            if reader.known.contains(other) {
                assert(history.table.dom().contains(alias(other)));
            }
        }
        assert forall|name: Seq<char>| #[trigger] after.table.dom().contains(name) implies next.known.contains(
            after.table[name],
        ) && alias(after.table[name]) == name by {
            if name != alias(tool) {
                assert(history.table.dom().contains(name));
            }
        }
    }
}

proof fn lemma_result(reader: Reader, history: HistoryView, item: JsonView)
    requires
        is_at(reader, history),
        is_result(item),
    ensures
        history.read_result(item) is Ok <==> reader.next(item) is Some,
        history.read_result(item) matches Ok(after) ==> is_batched(after) ==> is_at(
            reader.next(item)->Some_0,
            after,
        ),
{
    lemma_kinds();
    lemma_readable(item.field("output"@));
    let id = text_in(item.field("call_id"@));
    assert(reader.waiting.contains(id) <==> call_position(history.open, id) is Some);
    if let Ok(after) = history.read_result(item) {
        let next = reader.next(item)->Some_0;
        let i = call_position(history.open, id)->Some_0;
        lemma_position(history.open, id);
        assert(after.open == history.open.remove(i));
        assert(after.table == history.table);
        assert(!after.assistant_last());
        assert forall|other: Seq<char>| #[trigger] next.waiting.contains(other) <==> call_position(
            after.open,
            other,
        ) is Some by {
            lemma_removed(history.open, i, other);
            assert(reader.waiting.contains(other) <==> call_position(history.open, other) is Some);
        }
        lemma_waiting(next.waiting, after.open);
        assert forall|a: int, b: int| 0 <= a < b < after.open.len() implies (#[trigger] after.open[a]).id != (
        #[trigger] after.open[b]).id by {
            let c = if a < i {
                a
            } else {
                a + 1
            };
            let d = if b < i {
                b
            } else {
                b + 1
            };
            assert(after.open[a] == history.open[c] && after.open[b] == history.open[d]);
        }
    }
}

proof fn lemma_next(reader: Reader, history: HistoryView, item: JsonView)
    requires
        is_at(reader, history),
    ensures
        history.read(item) is Ok <==> reader.next(item) is Some,
        history.read(item) matches Ok(after) ==> is_at(reader.next(item)->Some_0, after),
{
    lemma_kinds();
    reveal_strlit("user");
    reveal_strlit("system");
    reveal_strlit("developer");
    reveal_strlit("assistant");
    assert("user"@.len() == 4 && "system"@.len() == 6 && "developer"@.len() == 9 && "assistant"@.len() == 9);
    assert("developer"@[0] != "assistant"@[0]);
    reveal_strlit("additional_tools");
    reveal_strlit("message");
    assert("additional_tools"@.len() == 16 && "message"@.len() == 7);
    lemma_read_batched(history, item);
    let kind = item.field("type"@);
    lemma_readable(item.field("content"@));
    lemma_readable(item.field("summary"@));
    let content = words(item.field("content"@));
    if is_called(item) {
        lemma_called(reader, history, item);
    } else if is_result(item) {
        lemma_result(reader, history, item);
    } else if kind == JsonView::Text("message"@) || kind == JsonView::Text("agent_message"@) {
        lemma_heard(reader, history, "user"@, content);
        lemma_heard(reader, history, "system"@, content);
        lemma_heard(reader, history, "developer"@, content);
        if let Ok(after) = history.read(item) {
            assert(after.open == history.open);
            assert(after.table == history.table);
            if is_said(item) && history.open.len() > 0 {
                assert(after.assistant_last() == history.assistant_last());
            }
        }
    }
}

proof fn lemma_after(reader: Reader, history: HistoryView, items: Seq<JsonView>)
    requires
        is_at(reader, history),
    ensures
        history.read_all(items) is Ok <==> reader.after(items) is Some,
        history.read_all(items) matches Ok(after) ==> is_at(reader.after(items)->Some_0, after),
    decreases items.len(),
{
    if items.len() > 0 {
        lemma_after(reader, history, items.drop_last());
        if let Ok(between) = history.read_all(items.drop_last()) {
            lemma_next(reader.after(items.drop_last())->Some_0, between, items.last());
        }
    }
}

/// A request is encoded exactly where it has a list of items that make a history, its
/// tools can be offered together, and it asks for what there is. Any other request is
/// refused.
pub proof fn requests_are_accepted_or_refused(request: JsonView)
    ensures
        encode_view(request) is Ok <==> {
            &&& request.field("input"@) is Array
            &&& namespaces_hold(list_in(request.field("tools"@)))
            &&& added_namespaces_hold(list_in(request.field("input"@)))
            &&& are_possible(all_offers(request))
            &&& makes_history(request)
            &&& asks_for_what_there_is(request)
        },
{
    offers_are_accepted(request);
    lemma_settings(request);
    if let Ok(declared) = declared_view(request) {
        let offers = all_offers(request);
        let start = Reader {
            known: tools_offered(offers),
            waiting: Set::empty(),
            answering: false,
            thinking: false,
        };
        let history = opened(request, declared.table);
        lemma_waiting(start.waiting, history.open);
        assert forall|tool: ToolView| #[trigger] start.known.contains(tool) implies history.table.dom().contains(
            alias(tool),
        ) && history.table[alias(tool)] == tool by {
            let j = choose|j: int| 0 <= j < offers.len() && (#[trigger] offers[j]).tool() == tool;
            assert(alias(offers[j].tool()) == alias(tool));
            assert(is_offered(offers, alias(tool)));
            assert(declared.table.dom().contains(alias(tool)));
        }
        assert forall|name: Seq<char>| #[trigger] history.table.dom().contains(name) implies start.known.contains(
            history.table[name],
        ) && alias(history.table[name]) == name by {
            assert(declared.table.dom().contains(name));
            let j = choose|j: int| 0 <= j < offers.len() && alias((#[trigger] offers[j]).tool()) == name;
            assert(declared.table[alias(offers[j].tool())] == offers[j].tool());
        }
        assert(is_batched(history));
        assert(is_at(start, history));
        lemma_after(start, history, request.field("input"@)->Array_0);
    }
}

} // verus!
