//! The agent's history as the messages of a chat request.
//!
//! Calls and results come in batches: a run of calls in one assistant message, and
//! then a result for each of them. What the assistant says while results are
//! outstanding belongs to the message that made the calls.

use vstd::prelude::*;
use vstd::string::StringExecFns;

use crate::calls::CallView;
use crate::dispatch::call_item_view;
use crate::error::{invalid, refusal, ApiError, ErrorView};
use crate::event::ItemView;
use crate::json::{items_view, Json, JsonView};
use crate::message::{assistant, thought_of, Message, MessageView, WireCall, WireCallView};
use crate::text::{joined, optional_text, same_text};
use crate::tools::{register, registered, registration, Tool, ToolTable, ToolView};
use crate::views::{group_views, views};
use crate::wire::{parsed, serialized, text_of};

verus! {

broadcast use group_views;

/// The text field of that name, or the refusal of a value without it.
pub open spec fn string_view(value: JsonView, key: Seq<char>) -> Result<Seq<char>, ErrorView> {
    match value.field(key).text() {
        Some(text) => Ok(text),
        None => Err(refusal("missing string field "@ + key)),
    }
}

/// The text field of that name.
pub fn string<'a>(value: &'a Json, key: &str) -> (text: Result<&'a str, ApiError>)
    ensures
        match text {
            Ok(text) => string_view(value@, key@) == Ok::<Seq<char>, ErrorView>(text@),
            Err(error) => string_view(value@, key@) == Err::<Seq<char>, ErrorView>(error@),
        },
{
    match value.field(key).as_str() {
        Some(text) => Ok(text),
        None => Err(invalid(joined("missing string field ", key).as_str())),
    }
}

/// Whether a part of a content list carries text.
pub open spec fn is_text_part(part: JsonView) -> bool {
    let kind = part.field("type"@);
    ||| kind == JsonView::Text("input_text"@)
    ||| kind == JsonView::Text("output_text"@)
    ||| kind == JsonView::Text("text"@)
    ||| kind == JsonView::Text("reasoning_text"@)
    ||| kind == JsonView::Text("summary_text"@)
}

/// The texts of all parts, one after the other.
pub open spec fn parts_view(parts: Seq<JsonView>) -> Result<Seq<char>, ErrorView>
    decreases parts.len(),
{
    if parts.len() == 0 {
        Ok(Seq::empty())
    } else {
        match parts_view(parts.drop_last()) {
            Err(error) => Err(error),
            Ok(before) => if is_text_part(parts.last()) {
                match string_view(parts.last(), "text"@) {
                    Ok(text) => Ok(before + text),
                    Err(error) => Err(error),
                }
            } else {
                Err(
                    refusal(
                        "non-text or encrypted content is unsupported; use plaintext task handoffs"@,
                    ),
                )
            },
        }
    }
}

/// The text of a content: a text, or a list of text parts.
pub open spec fn text_view(content: JsonView) -> Result<Seq<char>, ErrorView> {
    match content {
        JsonView::Text(text) => Ok(text),
        JsonView::Array(parts) => parts_view(parts),
        _ => Err(refusal("expected text content"@)),
    }
}

/// The first part that is refused decides.
proof fn lemma_parts_refused(parts: Seq<JsonView>, n: int)
    requires
        0 <= n <= parts.len(),
        parts_view(parts.take(n)) is Err,
    ensures
        parts_view(parts) == parts_view(parts.take(n)),
    decreases parts.len() - n,
{
    if n < parts.len() {
        assert(parts.take(n + 1).drop_last() =~= parts.take(n));
        lemma_parts_refused(parts, n + 1);
    } else {
        assert(parts.take(n) =~= parts);
    }
}

/// The text of a content.
pub fn text(content: &Json) -> (text: Result<String, ApiError>)
    ensures
        match text {
            Ok(text) => text_view(content@) == Ok::<Seq<char>, ErrorView>(text@),
            Err(error) => text_view(content@) == Err::<Seq<char>, ErrorView>(error@),
        },
{
    if let Some(text) = content.as_str() {
        return Ok(text.to_owned());
    }
    let parts = match content.as_array() {
        Some(parts) => parts,
        None => return Err(invalid("expected text content")),
    };
    let ghost list = items_view(parts@);
    let mut result = String::new();
    let mut i: usize = 0;
    assert(list.take(0) =~= Seq::empty());
    while i < parts.len()
        invariant
            i <= parts.len(),
            list == items_view(parts@),
            content@ == JsonView::Array(list),
            parts_view(list.take(i as int)) == Ok::<Seq<char>, ErrorView>(result@),
        decreases parts.len() - i,
    {
        let part = &parts[i];
        proof {
            assert(list.take(i + 1).drop_last() =~= list.take(i as int));
            assert(list.take(i + 1).last() == part@);
            if parts_view(list.take(i + 1)) is Err {
                lemma_parts_refused(list, i + 1);
            }
        }
        let kind = part.field("type");
        if kind.is_text("input_text") || kind.is_text("output_text") || kind.is_text("text") || kind.is_text(
            "reasoning_text",
        ) || kind.is_text("summary_text") {
            result.append(string(part, "text")?);
        } else {
            return Err(
                invalid("non-text or encrypted content is unsupported; use plaintext task handoffs"),
            );
        }
        i = i + 1;
    }
    assert(list.take(parts.len() as int) =~= list);
    Ok(result)
}

/// A tool result that was sent as it is.
#[derive(Debug)]
pub struct SentResult {
    pub call: WireCall,
    pub output: String,
}

pub struct SentResultView {
    pub call: WireCallView,
    pub output: Seq<char>,
}

impl View for SentResult {
    type V = SentResultView;

    open spec fn view(&self) -> SentResultView {
        SentResultView { call: self.call@, output: self.output@ }
    }
}

/// The smallest result, in bytes, that a reference may stand for.
pub const LARGE_RESULT: usize = 1024;

/// The number of bytes of a text.
pub open spec fn byte_count(text: Seq<char>) -> nat {
    vstd::utf8::encode_utf8(text).len()
}

/// The number of bytes that a text takes in a JSON payload.
pub open spec fn payload(text: Seq<char>) -> nat {
    byte_count(serialized(JsonView::Text(text)))
}

/// What is sent in place of a result that was sent before.
pub open spec fn reference(call_id: Seq<char>) -> Seq<char> {
    "[Identical to the result of the same call with tool_call_id="@ + call_id + "; not repeated]"@
}

/// Whether a result that was sent can stand for another one: the same call gave the
/// same output, and naming it takes fewer bytes than repeating it.
pub open spec fn stands_in(
    sent: SentResultView,
    call: WireCallView,
    output: Seq<char>,
    reference_payload: nat,
    output_payload: nat,
) -> bool {
    &&& sent.call.name == call.name
    &&& sent.call.arguments == call.arguments
    &&& sent.output == output
    &&& reference_payload < output_payload
}

/// The same, with the bytes that both take in a JSON payload.
pub open spec fn stands_for(sent: SentResultView, call: WireCallView, output: Seq<char>) -> bool {
    stands_in(sent, call, output, payload(reference(sent.call.id)), payload(output))
}

/// The earliest result that can stand for that output.
pub open spec fn earlier_result(
    sent: Seq<SentResultView>,
    call: WireCallView,
    output: Seq<char>,
) -> Option<Seq<char>>
    decreases sent.len(),
{
    if sent.len() == 0 {
        None
    } else {
        match earlier_result(sent.drop_last(), call, output) {
            Some(id) => Some(id),
            None => if stands_for(sent.last(), call, output) {
                Some(sent.last().call.id)
            } else {
                None
            },
        }
    }
}

/// The last call of that ID.
pub open spec fn call_position(calls: Seq<WireCallView>, id: Seq<char>) -> Option<int>
    decreases calls.len(),
{
    if calls.len() == 0 {
        None
    } else if calls.last().id == id {
        Some(calls.len() - 1)
    } else {
        call_position(calls.drop_last(), id)
    }
}

/// New reasoning after what is recalled; nothing where there is none.
pub open spec fn after_thought(recalled: Seq<char>, reasoning: Seq<char>) -> Seq<char> {
    if reasoning.len() == 0 {
        Seq::empty()
    } else {
        recalled + reasoning
    }
}

/// The part of a history that has been read.
///
/// `reasoning` waits for the assistant message that it belongs to, `open` holds the
/// calls that wait for their results, and `batch` is the message that made them.
/// `recalled` is what the assistant thought before the last that it said in that
/// message.
#[derive(Debug)]
pub struct History {
    pub table: ToolTable,
    pub messages: Vec<Message>,
    pub reasoning: String,
    pub open: Vec<WireCall>,
    pub batch: usize,
    pub recalled: String,
    pub sent: Vec<SentResult>,
}

pub struct HistoryView {
    pub table: Map<Seq<char>, ToolView>,
    pub messages: Seq<MessageView>,
    pub reasoning: Seq<char>,
    pub open: Seq<WireCallView>,
    pub batch: int,
    pub recalled: Seq<char>,
    pub sent: Seq<SentResultView>,
}

impl View for History {
    type V = HistoryView;

    open spec fn view(&self) -> HistoryView {
        HistoryView {
            table: self.table@,
            messages: views(self.messages@),
            reasoning: self.reasoning@,
            open: views(self.open@),
            batch: self.batch as int,
            recalled: self.recalled@,
            sent: views(self.sent@),
        }
    }
}

impl HistoryView {
    /// Open calls belong to an assistant message.
    pub open spec fn wf(self) -> bool {
        self.open.len() > 0 ==> 0 <= self.batch < self.messages.len() && self.messages[self.batch] is Assistant
    }

    /// Whether the last message is one of the assistant.
    pub open spec fn assistant_last(self) -> bool {
        self.messages.len() > 0 && self.messages.last() is Assistant
    }

    pub open spec fn with_message(self, message: MessageView) -> HistoryView {
        HistoryView { messages: self.messages.push(message), ..self }
    }

    /// Adds what the assistant says. While calls are open it joins the message that
    /// made them, and what was thought before it is added to what that message holds.
    pub open spec fn say(self, content: Seq<char>) -> HistoryView {
        if self.open.len() > 0 {
            let recalled = thought_of(self.messages[self.batch]);
            let message = self.messages[self.batch].with_text(content).with_reasoning(
                after_thought(recalled, self.reasoning),
            );
            HistoryView {
                messages: self.messages.update(self.batch, message),
                reasoning: Seq::empty(),
                recalled,
                ..self
            }
        } else {
            HistoryView {
                messages: self.messages.push(assistant(content).with_reasoning(self.reasoning)),
                reasoning: Seq::empty(),
                ..self
            }
        }
    }

    /// Adds a message of the system or the user. What the assistant thought before
    /// a message of the user is kept as a message of its own.
    pub open spec fn hear(self, role: Seq<char>, content: Seq<char>) -> Result<HistoryView, ErrorView> {
        if self.open.len() > 0 {
            Err(refusal("a message interrupts a batch of tool calls"@))
        } else {
            let heard = MessageView::Plain {
                role: if role == "developer"@ { "system"@ } else { role },
                content,
            };
            if role == "user"@ && self.reasoning.len() > 0 {
                Ok(self.say(Seq::empty()).with_message(heard))
            } else {
                Ok(self.with_message(heard))
            }
        }
    }

    /// Adds a tool call. What was thought before it replaces what was thought before
    /// the last that the assistant said, or called, in the message.
    pub open spec fn ask(self, call: WireCallView) -> Result<HistoryView, ErrorView> {
        if self.open.len() > 0 && !self.assistant_last() {
            Err(refusal("a tool call interrupts a batch of results"@))
        } else if call_position(self.open, call.id) is Some {
            Err(refusal("duplicate tool call ID in history"@))
        } else {
            let messages = if self.assistant_last() {
                self.messages
            } else {
                self.messages.push(assistant(Seq::empty()))
            };
            let recalled = if self.open.len() > 0 {
                self.recalled
            } else {
                Seq::empty()
            };
            let message = messages.last().with_reasoning(after_thought(recalled, self.reasoning)).with_call(
                call,
            );
            Ok(
                HistoryView {
                    messages: messages.update(messages.len() - 1, message),
                    reasoning: Seq::empty(),
                    open: self.open.push(call),
                    batch: messages.len() - 1,
                    recalled,
                    ..self
                },
            )
        }
    }

    /// Adds the result of an open call, where `earlier` is the result that can stand
    /// for it.
    pub open spec fn answer_with(
        self,
        call_id: Seq<char>,
        output: Seq<char>,
        earlier: Option<Seq<char>>,
    ) -> Result<HistoryView, ErrorView> {
        match call_position(self.open, call_id) {
            None => Err(refusal("tool result without a pending call"@)),
            Some(i) => {
                let answered = HistoryView { open: self.open.remove(i), ..self };
                let verbatim = answered.with_message(MessageView::Tool { call_id, content: output });
                if byte_count(output) < LARGE_RESULT {
                    Ok(verbatim)
                } else {
                    match earlier {
                        Some(id) => Ok(
                            answered.with_message(
                                MessageView::Tool { call_id, content: reference(id) },
                            ),
                        ),
                        None => Ok(
                            HistoryView {
                                sent: self.sent.push(SentResultView { call: self.open[i], output }),
                                ..verbatim
                            },
                        ),
                    }
                }
            },
        }
    }

    /// Adds the result of an open call. A large result that an earlier one can stand
    /// for is sent as a reference to it.
    pub open spec fn answer(self, call_id: Seq<char>, output: Seq<char>) -> Result<HistoryView, ErrorView> {
        let earlier = match call_position(self.open, call_id) {
            None => None,
            Some(i) => earlier_result(self.sent, self.open[i], output),
        };
        self.answer_with(call_id, output, earlier)
    }

    /// Reads what the assistant thought. A summary stands in for it on display only:
    /// it is checked and not replayed.
    pub open spec fn read_reasoning(self, item: JsonView) -> Result<HistoryView, ErrorView> {
        if !(item.field("encrypted_content"@) is Null) {
            Err(
                refusal(
                    "encrypted reasoning cannot cross providers; start without inherited history"@,
                ),
            )
        } else if item.field("content"@) is Null {
            match text_view(item.field("summary"@)) {
                Err(error) => Err(error),
                Ok(_) => Ok(self),
            }
        } else {
            match text_view(item.field("content"@)) {
                Err(error) => Err(error),
                Ok(text) => Ok(HistoryView { reasoning: self.reasoning + text, ..self }),
            }
        }
    }

    pub open spec fn read_message(self, item: JsonView) -> Result<HistoryView, ErrorView> {
        let role = if item.field("type"@) == JsonView::Text("agent_message"@) {
            Ok("user"@)
        } else {
            string_view(item, "role"@)
        };
        match role {
            Err(error) => Err(error),
            Ok(role) => if role != "user"@ && role != "assistant"@ && role != "system"@ && role
                != "developer"@ {
                Err(refusal("unsupported message role"@))
            } else {
                match text_view(item.field("content"@)) {
                    Err(error) => Err(error),
                    Ok(content) => if role == "assistant"@ {
                        Ok(self.say(content))
                    } else {
                        self.hear(role, content)
                    },
                }
            },
        }
    }

    pub open spec fn read_call(self, item: JsonView) -> Result<HistoryView, ErrorView> {
        let custom = item.field("type"@) == JsonView::Text("custom_tool_call"@);
        if item.field("encrypted_function_args"@).items() matches Some(args) && args.len() > 0 {
            Err(refusal("encrypted tool arguments are unsupported"@))
        } else {
            match string_view(item, "name"@) {
                Err(error) => Err(error),
                Ok(name) => {
                    let tool = ToolView { name, namespace: item.field("namespace"@).text(), custom };
                    match registration(self.table, tool) {
                        Err(error) => Err(error),
                        Ok(wire) => match call_arguments(item, custom) {
                            Err(error) => Err(error),
                            Ok(arguments) => match string_view(item, "call_id"@) {
                                Err(error) => Err(error),
                                Ok(id) => HistoryView {
                                    table: registered(self.table, tool),
                                    ..self
                                }.ask(WireCallView { id, name: wire, arguments }),
                            },
                        },
                    }
                },
            }
        }
    }

    pub open spec fn read_result(self, item: JsonView) -> Result<HistoryView, ErrorView> {
        match string_view(item, "call_id"@) {
            Err(error) => Err(error),
            Ok(id) => match text_view(item.field("output"@)) {
                Err(error) => Err(error),
                Ok(output) => self.answer(id, output),
            },
        }
    }

    /// Reads one item of a history.
    pub open spec fn read(self, item: JsonView) -> Result<HistoryView, ErrorView> {
        let kind = item.field("type"@);
        if kind == JsonView::Text("reasoning"@) {
            self.read_reasoning(item)
        } else if kind == JsonView::Text("message"@) || kind == JsonView::Text("agent_message"@) {
            self.read_message(item)
        } else if kind == JsonView::Text("function_call"@) || kind == JsonView::Text("custom_tool_call"@) {
            self.read_call(item)
        } else if kind == JsonView::Text("function_call_output"@) || kind == JsonView::Text(
            "custom_tool_call_output"@,
        ) {
            self.read_result(item)
        } else if declares_tools(item) {
            Ok(self)
        } else {
            Err(refusal("unsupported history item; start without inherited history"@))
        }
    }

    /// Reads the items of a history, one after the other.
    pub open spec fn read_all(self, items: Seq<JsonView>) -> Result<HistoryView, ErrorView>
        decreases items.len(),
    {
        if items.len() == 0 {
            Ok(self)
        } else {
            match self.read_all(items.drop_last()) {
                Err(error) => Err(error),
                Ok(history) => history.read(items.last()),
            }
        }
    }

    /// The messages of a history that is complete.
    pub open spec fn settled(self) -> Result<Seq<MessageView>, ErrorView> {
        if self.open.len() > 0 {
            Err(refusal("tool calls without results"@))
        } else if self.reasoning.len() > 0 {
            Err(refusal("reasoning without an assistant message"@))
        } else {
            Ok(self.messages)
        }
    }
}

/// An item that adds to the advertised tools and says nothing else.
pub open spec fn declares_tools(item: JsonView) -> bool {
    item.field("type"@) == JsonView::Text("additional_tools"@) && item.field("tools"@) is Array
}

/// The input of a custom tool as the arguments of a function.
pub open spec fn custom_arguments(input: Seq<char>) -> JsonView {
    JsonView::object().with("input"@, JsonView::Text(input))
}

/// The arguments text of a call.
pub open spec fn call_arguments(item: JsonView, custom: bool) -> Result<Seq<char>, ErrorView> {
    if custom {
        match string_view(item, "input"@) {
            Err(error) => Err(error),
            Ok(input) => Ok(serialized(custom_arguments(input))),
        }
    } else {
        string_view(item, "arguments"@)
    }
}

/// New reasoning after what is recalled; nothing where there is none.
fn thought_after(recalled: &str, reasoning: &str) -> (thought: String)
    ensures
        thought@ == after_thought(recalled@, reasoning@),
{
    if reasoning.is_empty() {
        String::new()
    } else {
        joined(recalled, reasoning)
    }
}

/// The last call of that ID.
fn find_call(calls: &Vec<WireCall>, id: &str) -> (found: Option<usize>)
    ensures
        match found {
            Some(i) => call_position(views(calls@), id@) == Some(i as int) && i < calls.len(),
            None => call_position(views(calls@), id@) is None,
        },
{
    let ghost all = views(calls@);
    let mut i: usize = calls.len();
    assert(all.take(i as int) =~= all);
    while i > 0
        invariant
            i <= calls.len(),
            all == views(calls@),
            call_position(all, id@) == call_position(all.take(i as int), id@),
        decreases i,
    {
        i = i - 1;
        assert(all.take(i + 1).last() == calls[i as int]@);
        assert(all.take(i + 1).drop_last() =~= all.take(i as int));
        if same_text(calls[i].id.as_str(), id) {
            return Some(i);
        }
    }
    None
}

/// Whether a result that was sent can stand for another one, given the bytes that a
/// reference to it and the other one take in a JSON payload.
pub fn can_stand_in(
    sent: &SentResult,
    call: &WireCall,
    output: &str,
    reference_payload: usize,
    output_payload: usize,
) -> (can: bool)
    ensures
        can == stands_in(sent@, call@, output@, reference_payload as nat, output_payload as nat),
{
    same_text(sent.call.name.as_str(), call.name.as_str()) && same_text(
        sent.call.arguments.as_str(),
        call.arguments.as_str(),
    ) && same_text(sent.output.as_str(), output) && reference_payload < output_payload
}

/// The number of bytes that a text takes in a JSON payload.
fn payload_bytes(text: &str) -> (count: usize)
    ensures
        count == payload(text@),
{
    text_of(&Json::of_text(text)).as_str().as_bytes().len()
}

fn reference_text(call_id: &str) -> (text: String)
    ensures
        text@ == reference(call_id@),
{
    joined(
        joined("[Identical to the result of the same call with tool_call_id=", call_id).as_str(),
        "; not repeated]",
    )
}

/// The ID of the earliest result that can stand for that output.
fn find_earlier(sent: &Vec<SentResult>, call: &WireCall, output: &str) -> (id: Option<String>)
    ensures
        optional_text(id) == earlier_result(views(sent@), call@, output@),
{
    let ghost all = views(sent@);
    let output_payload = payload_bytes(output);
    let mut i: usize = 0;
    assert(all.take(0) =~= Seq::empty());
    while i < sent.len()
        invariant
            i <= sent.len(),
            all == views(sent@),
            output_payload == payload(output@),
            earlier_result(all.take(i as int), call@, output@) is None,
        decreases sent.len() - i,
    {
        assert(all.take(i + 1).last() == sent[i as int]@);
        assert(all.take(i + 1).drop_last() =~= all.take(i as int));
        let id = sent[i].call.id.as_str();
        if can_stand_in(&sent[i], call, output, payload_bytes(reference_text(id).as_str()), output_payload) {
            proof {
                lemma_earliest(all, i + 1, call@, output@);
            }
            return Some(id.to_owned());
        }
        i = i + 1;
    }
    assert(all.take(sent.len() as int) =~= all);
    None
}

/// The earliest result that can stand for an output stays the earliest.
proof fn lemma_earliest(sent: Seq<SentResultView>, n: int, call: WireCallView, output: Seq<char>)
    requires
        0 <= n <= sent.len(),
        earlier_result(sent.take(n), call, output) is Some,
    ensures
        earlier_result(sent, call, output) == earlier_result(sent.take(n), call, output),
    decreases sent.len() - n,
{
    if n < sent.len() {
        assert(sent.take(n + 1).drop_last() =~= sent.take(n));
        lemma_earliest(sent, n + 1, call, output);
    } else {
        assert(sent.take(n) =~= sent);
    }
}

impl History {
    /// A history of which nothing has been read.
    pub fn new(table: ToolTable) -> (history: History)
        requires
            table.wf(),
        ensures
            history.wf(),
            history@ == start(table@),
    {
        History {
            table,
            messages: Vec::new(),
            reasoning: String::new(),
            open: Vec::new(),
            batch: 0,
            recalled: String::new(),
            sent: Vec::new(),
        }
    }

    pub open spec fn wf(&self) -> bool {
        self.table.wf() && self@.wf()
    }

    fn assistant_last(&self) -> (is: bool)
        ensures
            is == self@.assistant_last(),
    {
        let count = self.messages.len();
        count > 0 && self.messages[count - 1].is_assistant()
    }

    /// Adds what the assistant says.
    pub fn say(self, content: String) -> (history: History)
        requires
            self.wf(),
        ensures
            history.wf(),
            history@ == self@.say(content@),
    {
        let mut history = self;
        let mut reasoning = String::new();
        std::mem::swap(&mut reasoning, &mut history.reasoning);
        if history.open.len() > 0 {
            history.recalled = history.messages[history.batch].thought();
            history.messages[history.batch].add_text(content.as_str());
            history.messages[history.batch].set_reasoning(
                thought_after(history.recalled.as_str(), reasoning.as_str()),
            );
            assert(history@.messages =~= self@.say(content@).messages);
        } else {
            let mut message = Message::assistant(content);
            message.set_reasoning(reasoning);
            history.messages.push(message);
        }
        history
    }

    /// Adds a message of the system or the user.
    pub fn hear(self, role: &str, content: String) -> (history: Result<History, ApiError>)
        requires
            self.wf(),
        ensures
            match history {
                Ok(history) => history.wf() && self@.hear(role@, content@) == Ok::<HistoryView, ErrorView>(
                    history@,
                ),
                Err(error) => self@.hear(role@, content@) == Err::<HistoryView, ErrorView>(error@),
            },
    {
        if self.open.len() > 0 {
            return Err(invalid("a message interrupts a batch of tool calls"));
        }
        let mut history = self;
        if same_text(role, "user") && !history.reasoning.as_str().is_empty() {
            history = history.say(String::new());
        }
        let role = if same_text(role, "developer") {
            "system".to_owned()
        } else {
            role.to_owned()
        };
        history.messages.push(Message::Plain { role, content });
        Ok(history)
    }

    /// Adds a tool call.
    pub fn ask(self, call: WireCall) -> (history: Result<History, ApiError>)
        requires
            self.wf(),
        ensures
            match history {
                Ok(history) => history.wf() && self@.ask(call@) == Ok::<HistoryView, ErrorView>(history@),
                Err(error) => self@.ask(call@) == Err::<HistoryView, ErrorView>(error@),
            },
    {
        if self.open.len() > 0 && !self.assistant_last() {
            return Err(invalid("a tool call interrupts a batch of results"));
        }
        if find_call(&self.open, call.id.as_str()).is_some() {
            return Err(invalid("duplicate tool call ID in history"));
        }
        let mut history = self;
        if !history.assistant_last() {
            history.messages.push(Message::assistant(String::new()));
        }
        let ghost before = history@;
        let last = history.messages.len() - 1;
        let mut reasoning = String::new();
        std::mem::swap(&mut reasoning, &mut history.reasoning);
        if history.open.len() == 0 {
            history.recalled = String::new();
        }
        history.messages[last].set_reasoning(
            thought_after(history.recalled.as_str(), reasoning.as_str()),
        );
        history.messages[last].add_call(call.clone());
        assert(history@.messages =~= before.messages.update(
            last as int,
            before.messages.last().with_reasoning(
                after_thought(history@.recalled, before.reasoning),
            ).with_call(call@),
        ));
        history.open.push(call);
        history.batch = last;
        Ok(history)
    }

    /// Adds the result of an open call, where `earlier` is the result that can stand
    /// for it.
    pub fn answer_with(self, call_id: &str, output: String, earlier: Option<String>) -> (history: Result<
        History,
        ApiError,
    >)
        requires
            self.wf(),
        ensures
            match history {
                Ok(history) => history.wf() && self@.answer_with(call_id@, output@, optional_text(earlier))
                    == Ok::<HistoryView, ErrorView>(history@),
                Err(error) => self@.answer_with(call_id@, output@, optional_text(earlier)) == Err::<
                    HistoryView,
                    ErrorView,
                >(error@),
            },
    {
        let i = match find_call(&self.open, call_id) {
            Some(i) => i,
            None => return Err(invalid("tool result without a pending call")),
        };
        let mut history = self;
        let call = history.open.remove(i);
        let call_id = call_id.to_owned();
        if output.as_str().as_bytes().len() < LARGE_RESULT {
            history.messages.push(Message::Tool { call_id, content: output });
        } else {
            match earlier {
                Some(id) => {
                    history.messages.push(
                        Message::Tool { call_id, content: reference_text(id.as_str()) },
                    );
                },
                None => {
                    history.sent.push(SentResult { call, output: output.clone() });
                    history.messages.push(Message::Tool { call_id, content: output });
                },
            }
        }
        Ok(history)
    }

    /// Adds the result of an open call.
    pub fn answer(self, call_id: &str, output: String) -> (history: Result<History, ApiError>)
        requires
            self.wf(),
        ensures
            match history {
                Ok(history) => history.wf() && self@.answer(call_id@, output@) == Ok::<HistoryView, ErrorView>(
                    history@,
                ),
                Err(error) => self@.answer(call_id@, output@) == Err::<HistoryView, ErrorView>(error@),
            },
    {
        let earlier = match find_call(&self.open, call_id) {
            Some(i) => find_earlier(&self.sent, &self.open[i], output.as_str()),
            None => None,
        };
        self.answer_with(call_id, output, earlier)
    }
}

impl History {
    fn read_reasoning(self, item: &Json) -> (history: Result<History, ApiError>)
        requires
            self.wf(),
        ensures
            match history {
                Ok(history) => history.wf() && self@.read_reasoning(item@) == Ok::<HistoryView, ErrorView>(history@),
                Err(error) => self@.read_reasoning(item@) == Err::<HistoryView, ErrorView>(error@),
            },
    {
        if !item.field("encrypted_content").is_null() {
            return Err(
                invalid("encrypted reasoning cannot cross providers; start without inherited history"),
            );
        }
        let mut history = self;
        if !item.field("content").is_null() {
            let reasoning = text(item.field("content"))?;
            history.reasoning.append(reasoning.as_str());
        } else {
            text(item.field("summary"))?;
        }
        Ok(history)
    }

    fn read_message(self, item: &Json) -> (history: Result<History, ApiError>)
        requires
            self.wf(),
        ensures
            match history {
                Ok(history) => history.wf() && self@.read_message(item@) == Ok::<HistoryView, ErrorView>(history@),
                Err(error) => self@.read_message(item@) == Err::<HistoryView, ErrorView>(error@),
            },
    {
        let role = if item.field("type").is_text("agent_message") {
            "user"
        } else {
            string(item, "role")?
        };
        if !same_text(role, "user") && !same_text(role, "assistant") && !same_text(role, "system")
            && !same_text(role, "developer") {
            return Err(invalid("unsupported message role"));
        }
        let content = text(item.field("content"))?;
        if same_text(role, "assistant") {
            Ok(self.say(content))
        } else {
            self.hear(role, content)
        }
    }

    fn read_call(self, item: &Json) -> (history: Result<History, ApiError>)
        requires
            self.wf(),
        ensures
            match history {
                Ok(history) => history.wf() && self@.read_call(item@) == Ok::<HistoryView, ErrorView>(history@),
                Err(error) => self@.read_call(item@) == Err::<HistoryView, ErrorView>(error@),
            },
    {
        if let Some(args) = item.field("encrypted_function_args").as_array() {
            assert(items_view(args@).len() == args.len());
            if args.len() > 0 {
                return Err(invalid("encrypted tool arguments are unsupported"));
            }
        }
        let custom = item.field("type").is_text("custom_tool_call");
        let tool = Tool {
            name: string(item, "name")?.to_owned(),
            namespace: match item.field("namespace").as_str() {
                Some(namespace) => Some(namespace.to_owned()),
                None => None,
            },
            custom,
        };
        let mut history = self;
        let name = register(&mut history.table, tool)?;
        let arguments = arguments_text(item, custom)?;
        let id = string(item, "call_id")?.to_owned();
        history.ask(WireCall { id, name, arguments })
    }

    fn read_result(self, item: &Json) -> (history: Result<History, ApiError>)
        requires
            self.wf(),
        ensures
            match history {
                Ok(history) => history.wf() && self@.read_result(item@) == Ok::<HistoryView, ErrorView>(history@),
                Err(error) => self@.read_result(item@) == Err::<HistoryView, ErrorView>(error@),
            },
    {
        let id = string(item, "call_id")?;
        let output = text(item.field("output"))?;
        self.answer(id, output)
    }

    /// Reads one item of a history.
    pub fn read(self, item: &Json) -> (history: Result<History, ApiError>)
        requires
            self.wf(),
        ensures
            match history {
                Ok(history) => history.wf() && self@.read(item@) == Ok::<HistoryView, ErrorView>(history@),
                Err(error) => self@.read(item@) == Err::<HistoryView, ErrorView>(error@),
            },
    {
        let kind = item.field("type");
        if kind.is_text("reasoning") {
            self.read_reasoning(item)
        } else if kind.is_text("message") || kind.is_text("agent_message") {
            self.read_message(item)
        } else if kind.is_text("function_call") || kind.is_text("custom_tool_call") {
            self.read_call(item)
        } else if kind.is_text("function_call_output") || kind.is_text("custom_tool_call_output") {
            self.read_result(item)
        } else if additional_tools(item).is_some() {
            Ok(self)
        } else {
            Err(invalid("unsupported history item; start without inherited history"))
        }
    }

    /// Reads the items of a history, one after the other.
    pub fn read_all(self, items: &Vec<Json>) -> (history: Result<History, ApiError>)
        requires
            self.wf(),
        ensures
            match history {
                Ok(history) => history.wf() && self@.read_all(items_view(items@)) == Ok::<HistoryView, ErrorView>(history@),
                Err(error) => self@.read_all(items_view(items@)) == Err::<HistoryView, ErrorView>(error@),
            },
    {
        let ghost all = items_view(items@);
        let ghost before = self@;
        let mut history = self;
        let mut i: usize = 0;
        assert(all.take(0) =~= Seq::empty());
        while i < items.len()
            invariant
                i <= items.len(),
                all == items_view(items@),
                before == self@,
                history.wf(),
                before.read_all(all.take(i as int)) == Ok::<HistoryView, ErrorView>(history@),
            decreases items.len() - i,
        {
            proof {
                assert(all.take(i + 1).drop_last() =~= all.take(i as int));
                assert(all.take(i + 1).last() == items[i as int]@);
                if before.read_all(all.take(i + 1)) is Err {
                    lemma_refused(before, all, i + 1);
                }
            }
            history = history.read(&items[i])?;
            i = i + 1;
        }
        assert(all.take(items.len() as int) =~= all);
        Ok(history)
    }

    /// The messages of a history that is complete.
    pub fn settle(self) -> (messages: Result<Vec<Message>, ApiError>)
        ensures
            match messages {
                Ok(messages) => self@.settled() == Ok::<Seq<MessageView>, ErrorView>(views(messages@)),
                Err(error) => self@.settled() == Err::<Seq<MessageView>, ErrorView>(error@),
            },
    {
        if self.open.len() > 0 {
            return Err(invalid("tool calls without results"));
        }
        if !self.reasoning.as_str().is_empty() {
            return Err(invalid("reasoning without an assistant message"));
        }
        Ok(self.messages)
    }
}

/// The first item that is refused decides.
proof fn lemma_refused(history: HistoryView, items: Seq<JsonView>, n: int)
    requires
        0 <= n <= items.len(),
        history.read_all(items.take(n)) is Err,
    ensures
        history.read_all(items) == history.read_all(items.take(n)),
    decreases items.len() - n,
{
    if n < items.len() {
        assert(items.take(n + 1).drop_last() =~= items.take(n));
        lemma_refused(history, items, n + 1);
    } else {
        assert(items.take(n) =~= items);
    }
}

/// The tools that an item adds to the advertised ones.
pub fn additional_tools(item: &Json) -> (tools: Option<&Vec<Json>>)
    ensures
        tools is Some == declares_tools(item@),
        tools matches Some(tools) ==> item@.field("tools"@) == JsonView::Array(items_view(tools@)),
{
    if item.field("type").is_text("additional_tools") {
        item.field("tools").as_array()
    } else {
        None
    }
}

/// The input of a custom tool as arguments text. A call with these arguments hands
/// the same input over.
pub fn custom_arguments_text(input: &str) -> (text: String)
    ensures
        text@ == serialized(custom_arguments(input@)),
        parsed(text@) == Some(custom_arguments(input@)),
        forall|call: CallView, tool: ToolView|
            tool.custom && call.arguments == text@ ==> #[trigger] call_item_view(
                call,
                tool,
                parsed(call.arguments),
            ) == Ok::<ItemView, ErrorView>(
                ItemView::CustomToolCall {
                    call_id: call.id,
                    name: tool.name,
                    namespace: tool.namespace,
                    input: input@,
                },
            ),
{
    text_of(&Json::object().with("input", Json::of_text(input)))
}

/// The arguments text of a call.
fn arguments_text(item: &Json, custom: bool) -> (arguments: Result<String, ApiError>)
    ensures
        match arguments {
            Ok(arguments) => call_arguments(item@, custom) == Ok::<Seq<char>, ErrorView>(arguments@),
            Err(error) => call_arguments(item@, custom) == Err::<Seq<char>, ErrorView>(error@),
        },
{
    if custom {
        let input = string(item, "input")?;
        Ok(custom_arguments_text(input))
    } else {
        Ok(string(item, "arguments")?.to_owned())
    }
}

/// A history of which nothing has been read.
pub open spec fn start(table: Map<Seq<char>, ToolView>) -> HistoryView {
    HistoryView {
        table,
        messages: Seq::empty(),
        reasoning: Seq::empty(),
        open: Seq::empty(),
        batch: 0,
        recalled: Seq::empty(),
        sent: Seq::empty(),
    }
}

} // verus!
