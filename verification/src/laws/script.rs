//! The messages of a body, one by one, told from the history.

use vstd::prelude::*;

use crate::history::{call_arguments, string_view, HistoryView};
use crate::json::JsonView;
use crate::laws::batches::{calls_of, is_batched, lemma_read_batched, lemma_say_batched};
use crate::laws::chunks::list_in;
use crate::laws::conversation::{
    carries_call, heard, instructed, is_called, is_large, is_result, is_said, lemma_call_json, lemma_words,
    tool_called, words,
};
use crate::laws::history::{bodies_carry_their_content, lemma_kinds};
use crate::message::{assistant, calls_json, thought_of, MessageView, WireCallView};
use crate::request::{encode_view, messages_json, messages_view, opened};
use crate::tools::alias;

verus! {

/// A message of the assistant: what it says, what it calls, and what was thought
/// before the last of that and earlier.
pub struct Speech {
    pub words: Seq<char>,
    pub calls: Seq<JsonView>,
    pub earlier: Seq<char>,
    pub thought: Seq<char>,
}

/// A message: one that is told to the assistant, or one of its own.
pub enum Line {
    Told(JsonView),
    Spoken(Speech),
}

/// The messages so far, the number of calls without results, and the thought that has
/// led to nothing yet.
pub struct Script {
    pub lines: Seq<Line>,
    pub waiting: int,
    pub pending: Seq<char>,
}

/// Where the last message of the assistant is.
pub open spec fn last_spoken(lines: Seq<Line>) -> int
    decreases lines.len(),
{
    if lines.len() == 0 || lines.last() is Spoken {
        lines.len() - 1
    } else {
        last_spoken(lines.drop_last())
    }
}

impl Script {
    pub open spec fn told(self, item: JsonView) -> Script {
        Script { lines: self.lines.push(Line::Told(item)), ..self }
    }

    /// A new message of the assistant, after what is pending.
    pub open spec fn spoken(self, text: Seq<char>, calls: Seq<JsonView>) -> Script {
        Script {
            lines: self.lines.push(
                Line::Spoken(Speech { words: text, calls, earlier: Seq::empty(), thought: self.pending }),
            ),
            pending: Seq::empty(),
            ..self
        }
    }

    /// More in the last message of the assistant.
    pub open spec fn spoken_on(self, speech: Speech) -> Script {
        Script {
            lines: self.lines.update(last_spoken(self.lines), Line::Spoken(speech)),
            pending: Seq::empty(),
            ..self
        }
    }

    /// The messages after an item. What is said while calls wait belongs to the message
    /// that made them; a call belongs to the message right before it, where that is one
    /// of the assistant. Everything else starts a message.
    pub open spec fn next(self, item: JsonView) -> Script {
        let content = words(item.field("content"@));
        let speech = self.lines[last_spoken(self.lines)]->Spoken_0;
        if item.field("type"@) == JsonView::Text("reasoning"@) {
            if item.field("content"@) is Null {
                self
            } else {
                Script { pending: self.pending + content, ..self }
            }
        } else if is_said(item) {
            if self.waiting > 0 {
                self.spoken_on(
                    Speech {
                        words: speech.words + content,
                        earlier: speech.earlier + speech.thought,
                        thought: self.pending,
                        ..speech
                    },
                )
            } else {
                self.spoken(content, Seq::empty())
            }
        } else if is_called(item) {
            let made = if self.lines.len() > 0 && self.lines.last() is Spoken {
                self.spoken_on(
                    Speech {
                        calls: speech.calls.push(item),
                        thought: if self.pending.len() > 0 {
                            self.pending
                        } else {
                            speech.thought
                        },
                        ..speech
                    },
                )
            } else {
                self.spoken(Seq::empty(), seq![item])
            };
            Script { waiting: self.waiting + 1, ..made }
        } else if heard(item) is Some {
            if heard(item)->Some_0.0 == "user"@ && self.pending.len() > 0 {
                self.spoken(Seq::empty(), Seq::empty()).told(item)
            } else {
                self.told(item)
            }
        } else if is_result(item) {
            Script { waiting: self.waiting - 1, ..self.told(item) }
        } else {
            self
        }
    }
}

/// The messages after items.
pub open spec fn script(items: Seq<JsonView>) -> Script
    decreases items.len(),
{
    if items.len() == 0 {
        Script { lines: Seq::empty(), waiting: 0, pending: Seq::empty() }
    } else {
        script(items.drop_last()).next(items.last())
    }
}

/// Whether a message of a body is a line of the script. It has the fields that it needs
/// and no others.
pub open spec fn is_line(message: JsonView, line: Line) -> bool {
    match line {
        Line::Told(item) => match heard(item) {
            Some((role, text)) => message == JsonView::object().with("role"@, JsonView::Text(role)).with(
                "content"@,
                JsonView::Text(text),
            ),
            None => {
                let output = words(item.field("output"@));
                let content = message.field("content"@);
                &&& is_result(item)
                &&& message == JsonView::object().with("role"@, JsonView::Text("tool"@)).with(
                    "tool_call_id"@,
                    item.field("call_id"@),
                ).with("content"@, content)
                &&& content is Text
                &&& content == JsonView::Text(output) || is_large(output)
            },
        },
        Line::Spoken(speech) => {
            let thought = speech.earlier + speech.thought;
            let calls = list_in(message.field("tool_calls"@));
            let plain = JsonView::object().with("role"@, JsonView::Text("assistant"@)).with(
                "content"@,
                JsonView::Text(speech.words),
            );
            let reasoned = if thought.len() > 0 {
                plain.with("reasoning_content"@, JsonView::Text(thought))
            } else {
                plain
            };
            &&& message == if speech.calls.len() > 0 {
                reasoned.with("tool_calls"@, message.field("tool_calls"@))
            } else {
                reasoned
            }
            &&& calls.len() == speech.calls.len()
            &&& forall|k: int| 0 <= k < calls.len() ==> carries_call(#[trigger] calls[k], speech.calls[k])
        },
    }
}

/// Whether a call is the call of an item.
spec fn is_call_of(call: WireCallView, item: JsonView) -> bool {
    carries_call(call.json(), item)
}

/// Whether a message is a line.
spec fn is_line_of(message: MessageView, line: Line) -> bool {
    match line {
        Line::Told(item) => match heard(item) {
            Some((role, content)) => message == (MessageView::Plain { role, content }),
            None => {
                let output = words(item.field("output"@));
                &&& is_result(item)
                &&& message matches MessageView::Tool { call_id, content }
                &&& item.field("call_id"@) == JsonView::Text(call_id)
                &&& content == output || is_large(output)
            },
        },
        Line::Spoken(speech) => {
            &&& message matches MessageView::Assistant { content, reasoning, calls }
            &&& content == speech.words
            &&& thought_of(message) == speech.earlier + speech.thought
            &&& reasoning matches Some(text) ==> text.len() > 0
            &&& calls.len() == speech.calls.len()
            &&& forall|k: int| 0 <= k < calls.len() ==> is_call_of(#[trigger] calls[k], speech.calls[k])
        },
    }
}

/// Whether a history is its script, after the messages that open it.
spec fn is_script(history: HistoryView, start: int, script: Script) -> bool {
    let lines = script.lines;
    &&& is_batched(history)
    &&& history.messages.len() == start + lines.len()
    &&& 0 <= start
    &&& forall|i: int| 0 <= i < start ==> (#[trigger] history.messages[i]) is Plain
    &&& forall|k: int| 0 <= k < lines.len() ==> is_line_of(history.messages[start + k], #[trigger] lines[k])
    &&& history.open.len() == script.waiting
    &&& history.reasoning == script.pending
    &&& history.open.len() > 0 ==> {
        &&& history.batch == start + last_spoken(lines)
        &&& history.recalled == lines[last_spoken(lines)]->Spoken_0.earlier
    }
    &&& history.open.len() == 0 && history.assistant_last() ==> lines.len() > 0
        && lines.last()->Spoken_0.earlier.len() == 0
}

/// A line tells whether its message is one of the assistant.
proof fn lemma_kind(message: MessageView, line: Line)
    requires
        is_line_of(message, line),
    ensures
        line is Spoken <==> message is Assistant,
{
}

proof fn lemma_last_spoken(lines: Seq<Line>, i: int)
    requires
        0 <= i < lines.len(),
        lines[i] is Spoken,
        forall|k: int| i < k < lines.len() ==> !((#[trigger] lines[k]) is Spoken),
    ensures
        last_spoken(lines) == i,
    decreases lines.len(),
{
    if i < lines.len() - 1 {
        let rest = lines.drop_last();
        assert(!(lines[lines.len() - 1] is Spoken));
        assert forall|k: int| i < k < rest.len() implies !((#[trigger] rest[k]) is Spoken) by {
            assert(!(lines[k] is Spoken));
        }
        lemma_last_spoken(rest, i);
    }
}

/// The last message of the assistant is where the script says.
proof fn lemma_place(history: HistoryView, start: int, script: Script)
    requires
        is_script(history, start, script),
        history.open.len() > 0 || history.assistant_last(),
    ensures
        ({
            let last = last_spoken(script.lines);
            let place = if history.open.len() > 0 {
                history.batch
            } else {
                history.messages.len() - 1
            };
            &&& 0 <= last < script.lines.len()
            &&& script.lines[last] is Spoken
            &&& place == start + last
            &&& history.messages[place] is Assistant
            &&& history.assistant_last() ==> last == script.lines.len() - 1
        }),
{
    let lines = script.lines;
    let place = if history.open.len() > 0 {
        history.batch
    } else {
        history.messages.len() - 1
    };
    assert(history.messages[place] is Assistant);
    if place < start {
        assert(history.messages[place] is Plain);
    }
    let i = place - start;
    assert(is_line_of(history.messages[start + i], lines[i]));
    lemma_kind(history.messages[start + i], lines[i]);
    assert forall|k: int| i < k < lines.len() implies !((#[trigger] lines[k]) is Spoken) by {
        assert(is_line_of(history.messages[start + k], lines[k]));
        lemma_kind(history.messages[start + k], lines[k]);
        assert(history.messages[start + k] is Tool);
    }
    lemma_last_spoken(lines, i);
    if history.assistant_last() && i < lines.len() - 1 {
        assert(history.messages[history.messages.len() - 1] is Tool);
    }
}

/// A history with one more message is its script with one more line.
proof fn lemma_push(before: HistoryView, after: HistoryView, start: int, script: Script, line: Line)
    requires
        is_script(before, start, script),
        after.messages.len() == before.messages.len() + 1,
        after.messages.drop_last() == before.messages,
        is_line_of(after.messages.last(), line),
    ensures
        ({
            let lines = script.lines.push(line);
            &&& after.messages.len() == start + lines.len()
            &&& forall|i: int| 0 <= i < start ==> (#[trigger] after.messages[i]) is Plain
            &&& forall|k: int| 0 <= k < lines.len() ==> is_line_of(after.messages[start + k], #[trigger] lines[k])
        }),
{
    let lines = script.lines.push(line);
    assert forall|i: int| 0 <= i < before.messages.len() implies after.messages[i] == #[trigger] before.messages[i] by {
        assert(after.messages.drop_last()[i] == after.messages[i]);
    }
    assert forall|i: int| 0 <= i < start implies (#[trigger] after.messages[i]) is Plain by {
        assert(after.messages[i] == before.messages[i]);
    }
    assert forall|k: int| 0 <= k < lines.len() implies is_line_of(after.messages[start + k], #[trigger] lines[k]) by {
        if k < script.lines.len() {
            assert(lines[k] == script.lines[k]);
            assert(after.messages[start + k] == before.messages[start + k]);
        }
    }
}

/// A history with a message changed is its script with that line changed.
proof fn lemma_update(
    before: HistoryView,
    after: HistoryView,
    start: int,
    script: Script,
    at: int,
    line: Line,
)
    requires
        is_script(before, start, script),
        0 <= at < script.lines.len(),
        after.messages == before.messages.update(start + at, after.messages[start + at]),
        is_line_of(after.messages[start + at], line),
    ensures
        ({
            let lines = script.lines.update(at, line);
            &&& after.messages.len() == start + lines.len()
            &&& forall|i: int| 0 <= i < start ==> (#[trigger] after.messages[i]) is Plain
            &&& forall|k: int| 0 <= k < lines.len() ==> is_line_of(after.messages[start + k], #[trigger] lines[k])
        }),
{
    let lines = script.lines.update(at, line);
    assert forall|i: int| 0 <= i < start implies (#[trigger] after.messages[i]) is Plain by {
        assert(after.messages[i] == before.messages[i]);
    }
    assert forall|k: int| 0 <= k < lines.len() implies is_line_of(after.messages[start + k], #[trigger] lines[k]) by {
        if k != at {
            assert(lines[k] == script.lines[k]);
            assert(after.messages[start + k] == before.messages[start + k]);
        }
    }
}

proof fn lemma_say(history: HistoryView, start: int, script: Script, content: Seq<char>)
    requires
        is_script(history, start, script),
        is_batched(history.say(content)),
    ensures
        ({
            let speech = script.lines[last_spoken(script.lines)]->Spoken_0;
            is_script(
                history.say(content),
                start,
                if script.waiting > 0 {
                    script.spoken_on(
                        Speech {
                            words: speech.words + content,
                            earlier: speech.earlier + speech.thought,
                            thought: script.pending,
                            ..speech
                        },
                    )
                } else {
                    script.spoken(content, Seq::empty())
                },
            )
        }),
{
    let after = history.say(content);
    let lines = script.lines;
    if history.open.len() > 0 {
        lemma_place(history, start, script);
        let at = last_spoken(lines);
        let speech = lines[at]->Spoken_0;
        let more = Speech {
            words: speech.words + content,
            earlier: speech.earlier + speech.thought,
            thought: script.pending,
            ..speech
        };
        let old_message = history.messages[history.batch];
        let message = after.messages[history.batch];
        assert(is_line_of(history.messages[start + at], lines[at]));
        assert(after.messages =~= history.messages.update(start + at, after.messages[start + at]));
        if script.pending.len() == 0 {
            assert(script.pending =~= Seq::empty());
            assert(more.earlier + more.thought =~= more.earlier);
        }
        assert(calls_of(message) == calls_of(old_message));
        assert(is_line_of(message, Line::Spoken(more)));
        lemma_update(history, after, start, script, at, Line::Spoken(more));
        let changed = lines.update(at, Line::Spoken(more));
        assert forall|k: int| at < k < changed.len() implies !((#[trigger] changed[k]) is Spoken) by {
            assert(changed[k] == lines[k]);
            assert(is_line_of(history.messages[start + k], lines[k]));
            assert(history.messages[start + k] is Tool);
        }
        lemma_last_spoken(changed, at);
    } else {
        let line = Line::Spoken(
            Speech { words: content, calls: Seq::empty(), earlier: Seq::empty(), thought: script.pending },
        );
        assert(after.messages.drop_last() =~= history.messages);
        assert(Seq::<char>::empty() + script.pending =~= script.pending);
        if script.pending.len() == 0 {
            assert(script.pending =~= Seq::empty());
        }
        assert(is_line_of(after.messages.last(), line));
        lemma_push(history, after, start, script, line);
    }
}

proof fn lemma_told(history: HistoryView, start: int, script: Script, item: JsonView, message: MessageView)
    requires
        is_script(history, start, script),
        history.open.len() == 0,
        is_line_of(message, Line::Told(item)),
        is_batched(history.with_message(message)),
    ensures
        is_script(history.with_message(message), start, script.told(item)),
{
    let after = history.with_message(message);
    assert(after.messages.drop_last() =~= history.messages);
    lemma_push(history, after, start, script, Line::Told(item));
    assert(!after.assistant_last());
}

proof fn lemma_ask(history: HistoryView, start: int, script: Script, call: WireCallView, item: JsonView)
    requires
        is_script(history, start, script),
        is_call_of(call, item),
    ensures
        history.ask(call) matches Ok(after) ==> is_batched(after) ==> {
            let speech = script.lines[last_spoken(script.lines)]->Spoken_0;
            let made = if script.lines.len() > 0 && script.lines.last() is Spoken {
                script.spoken_on(
                    Speech {
                        calls: speech.calls.push(item),
                        thought: if script.pending.len() > 0 {
                            script.pending
                        } else {
                            speech.thought
                        },
                        ..speech
                    },
                )
            } else {
                script.spoken(Seq::empty(), seq![item])
            };
            is_script(after, start, Script { waiting: script.waiting + 1, ..made })
        },
{
    if let Ok(after) = history.ask(call) {
        let lines = script.lines;
        if script.pending.len() == 0 {
            assert(script.pending =~= Seq::empty());
        }
        if lines.len() > 0 {
            assert(is_line_of(history.messages[start + (lines.len() - 1)], lines[lines.len() - 1]));
            lemma_kind(history.messages.last(), lines.last());
        } else if start > 0 {
            assert(history.messages[start - 1] is Plain);
        }
        assert(history.assistant_last() <==> lines.len() > 0 && lines.last() is Spoken);
        if history.assistant_last() {
            lemma_place(history, start, script);
            let at = last_spoken(lines);
            let speech = lines[at]->Spoken_0;
            let more = Speech {
                calls: speech.calls.push(item),
                thought: if script.pending.len() > 0 {
                    script.pending
                } else {
                    speech.thought
                },
                ..speech
            };
            let message = after.messages[start + at];
            assert(is_line_of(history.messages[start + at], lines[at]));
            assert(after.messages =~= history.messages.update(start + at, message));
            if history.open.len() == 0 {
                assert(speech.earlier =~= Seq::empty());
            }
            assert(after.recalled == speech.earlier);
            let calls = calls_of(message);
            assert forall|k: int| 0 <= k < calls.len() implies is_call_of(#[trigger] calls[k], more.calls[k]) by {
                if k < speech.calls.len() {
                    assert(calls[k] == calls_of(history.messages[start + at])[k]);
                    assert(more.calls[k] == speech.calls[k]);
                }
            }
            assert(is_line_of(message, Line::Spoken(more)));
            lemma_update(history, after, start, script, at, Line::Spoken(more));
            let changed = lines.update(at, Line::Spoken(more));
            lemma_last_spoken(changed, at);
        } else {
            let line = Line::Spoken(
                Speech {
                    words: Seq::empty(),
                    calls: seq![item],
                    earlier: Seq::empty(),
                    thought: script.pending,
                },
            );
            let message = after.messages.last();
            assert(after.messages.drop_last() =~= history.messages);
            assert(Seq::<char>::empty() + script.pending =~= script.pending);
            assert(calls_of(message) =~= seq![call]);
            assert(is_line_of(message, line));
            lemma_push(history, after, start, script, line);
            lemma_last_spoken(lines.push(line), lines.len() as int);
            assert(after.recalled =~= Seq::empty());
        }
    }
}

proof fn lemma_answer(history: HistoryView, start: int, script: Script, item: JsonView)
    requires
        is_script(history, start, script),
        is_result(item),
    ensures
        history.read(item) matches Ok(after) ==> is_batched(after) ==> is_script(after, start, script.next(item)),
{
    lemma_kinds();
    lemma_words(item.field("output"@));
    if let Ok(after) = history.read(item) {
        let line = Line::Told(item);
        let message = after.messages.last();
        assert(after.messages.drop_last() =~= history.messages);
        assert(is_line_of(message, line));
        lemma_push(history, after, start, script, line);
        assert(!after.assistant_last());
        if after.open.len() > 0 {
            let lines = script.lines.push(line);
            let at = last_spoken(script.lines);
            lemma_place(history, start, script);
            assert(lines.drop_last() =~= script.lines);
            assert(last_spoken(lines) == at);
            assert(lines[at] == script.lines[at]);
        }
    }
}

proof fn lemma_heard(history: HistoryView, start: int, script: Script, item: JsonView)
    requires
        is_script(history, start, script),
        heard(item) is Some,
    ensures
        history.read(item) matches Ok(after) ==> is_batched(after) ==> is_script(after, start, script.next(item)),
{
    lemma_kinds();
    reveal_strlit("user");
    reveal_strlit("system");
    reveal_strlit("developer");
    reveal_strlit("assistant");
    assert("user"@.len() == 4 && "system"@.len() == 6 && "developer"@.len() == 9 && "assistant"@.len() == 9);
    assert("developer"@[0] != "assistant"@[0]);
    lemma_words(item.field("content"@));
    if let Ok(after) = history.read(item) {
        let (role, content) = heard(item)->Some_0;
        let message = MessageView::Plain { role, content };
        if is_batched(after) {
            if role == "user"@ && history.reasoning.len() > 0 {
                let said = history.say(Seq::empty());
                assert(after == said.with_message(message));
                lemma_say_batched(history, Seq::empty());
                lemma_say(history, start, script, Seq::empty());
                lemma_told(said, start, script.spoken(Seq::empty(), Seq::empty()), item, message);
            } else {
                assert(after == history.with_message(message));
                lemma_told(history, start, script, item, message);
            }
        }
    }
}

proof fn lemma_next(history: HistoryView, start: int, script: Script, item: JsonView)
    requires
        is_script(history, start, script),
    ensures
        history.read(item) matches Ok(after) ==> is_script(after, start, script.next(item)),
{
    lemma_kinds();
    lemma_read_batched(history, item);
    reveal_strlit("user");
    reveal_strlit("system");
    reveal_strlit("developer");
    reveal_strlit("assistant");
    assert("user"@.len() == 4 && "system"@.len() == 6 && "developer"@.len() == 9 && "assistant"@.len() == 9);
    assert("developer"@[0] != "assistant"@[0]);
    reveal_strlit("additional_tools");
    reveal_strlit("message");
    reveal_strlit("agent_message");
    reveal_strlit("reasoning");
    assert("additional_tools"@.len() == 16 && "message"@.len() == 7 && "agent_message"@.len() == 13);
    assert("reasoning"@.len() == 9);
    lemma_words(item.field("content"@));
    if let Ok(after) = history.read(item) {
        if is_said(item) {
            lemma_say(history, start, script, words(item.field("content"@)));
        } else if is_called(item) {
            let tool = tool_called(item);
            let call = WireCallView {
                id: string_view(item, "call_id"@)->Ok_0,
                name: alias(tool),
                arguments: call_arguments(item, tool.custom)->Ok_0,
            };
            let entered = HistoryView { table: after.table, ..history };
            assert(is_batched(entered));
            assert(entered.ask(call) == history.read(item));
            lemma_call_json(call);
            lemma_ask(entered, start, script, call, item);
        } else if is_result(item) {
            lemma_answer(history, start, script, item);
        } else if heard(item) is Some {
            lemma_heard(history, start, script, item);
        }
    }
}

proof fn lemma_read_all(history: HistoryView, start: int, items: Seq<JsonView>)
    requires
        is_script(history, start, script(Seq::empty())),
    ensures
        history.read_all(items) matches Ok(after) ==> is_script(after, start, script(items)),
    decreases items.len(),
{
    if items.len() == 0 {
        assert(items =~= Seq::empty());
    } else {
        lemma_read_all(history, start, items.drop_last());
        if let Ok(between) = history.read_all(items.drop_last()) {
            lemma_next(between, start, script(items.drop_last()), items.last());
        }
    }
}

proof fn lemma_line(message: MessageView, line: Line)
    requires
        is_line_of(message, line),
    ensures
        is_line(message.json(), line),
{
    reveal_strlit("role");
    reveal_strlit("content");
    reveal_strlit("tool_calls");
    reveal_strlit("tool_call_id");
    reveal_strlit("reasoning_content");
    assert("role"@.len() == 4 && "content"@.len() == 7 && "tool_calls"@.len() == 10);
    assert("tool_call_id"@.len() == 12 && "reasoning_content"@.len() == 17);
    if let Line::Spoken(speech) = line {
        let calls = calls_of(message);
        let list = list_in(message.json().field("tool_calls"@));
        assert(list =~= calls_json(calls));
        assert forall|k: int| 0 <= k < list.len() implies carries_call(#[trigger] list[k], speech.calls[k]) by {
            assert(is_call_of(calls[k], speech.calls[k]));
        }
        if message->Assistant_reasoning is None {
            assert((speech.earlier + speech.thought).len() == 0);
        }
    }
}

/// A body says what the history says, message by message. After the instructions there
/// is one message for each line of the script, in order, with the role, the words, the
/// thoughts and the calls that the line has, and nothing else.
pub proof fn bodies_follow_the_script(request: JsonView)
    ensures
        encode_view(request) matches Ok((body, _)) ==> {
            let messages = list_in(body.field("messages"@));
            let lines = script(list_in(request.field("input"@))).lines;
            let start = instructed(request).len();
            &&& messages.len() == start + lines.len()
            &&& start > 0 ==> messages[0] == JsonView::object().with("role"@, JsonView::Text("system"@)).with(
                "content"@,
                request.field("instructions"@),
            )
            &&& forall|k: int| 0 <= k < lines.len() ==> is_line(messages[start + k], #[trigger] lines[k])
        },
{
    if let Ok((body, tools)) = encode_view(request) {
        let items = request.field("input"@)->Array_0;
        let history = opened(request, tools);
        let messages = messages_view(request, tools)->Ok_0;
        let start = instructed(request).len() as int;
        let lines = script(items).lines;
        bodies_carry_their_content(request);
        assert(is_batched(history));
        assert(history.messages.len() == start);
        assert(is_script(history, start, script(Seq::empty())));
        lemma_read_all(history, start, items);
        assert forall|k: int| 0 <= k < lines.len() implies is_line(
            messages_json(messages)[start + k],
            #[trigger] lines[k],
        ) by {
            assert(is_line_of(messages[start + k], lines[k]));
            lemma_line(messages[start + k], lines[k]);
        }
        if start > 0 {
            lemma_opening(history, items);
            assert(messages[0] == history.messages[0]);
        }
    }
}

/// What opens a history stays as it is.
proof fn lemma_opening(history: HistoryView, items: Seq<JsonView>)
    requires
        is_script(history, 1, script(Seq::empty())),
    ensures
        history.read_all(items) matches Ok(after) ==> after.messages.len() > 0 && after.messages[0]
            == history.messages[0],
    decreases items.len(),
{
    if items.len() > 0 {
        let rest = items.drop_last();
        lemma_opening(history, rest);
        lemma_read_all(history, 1, rest);
        if let Ok(between) = history.read_all(rest) {
            assert(between.messages[0] is Plain);
            lemma_kinds();
            lemma_read_batched(between, items.last());
            if between.open.len() > 0 {
                assert(between.batch != 0);
            }
        }
    }
}

} // verus!
