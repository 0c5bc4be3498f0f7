//! What a body says that the assistant thought, told from the history.

use vstd::prelude::*;

use crate::history::{string_view, text_view, HistoryView};
use crate::json::JsonView;
use crate::laws::batches::{is_batched, lemma_read_batched};
use crate::laws::chunks::{list_in, text_in};
use crate::laws::conversation::{heard, is_called, is_result, is_said, lemma_words, words};
use crate::laws::history::{bodies_carry_their_content, lemma_kinds};
use crate::message::{assistant, thought_of, MessageView, WireCallView};
use crate::request::{encode_view, messages_json, messages_view, opened};

verus! {

/// What the messages of a body say was thought, one after the other.
pub open spec fn thoughts_in(messages: Seq<JsonView>) -> Seq<char>
    decreases messages.len(),
{
    if messages.len() == 0 {
        Seq::empty()
    } else {
        thoughts_in(messages.drop_last()) + text_in(messages.last().field("reasoning_content"@))
    }
}

/// What was thought so far: what is settled, what led to the last thing that the
/// assistant said or called, and what has led to nothing yet. A call does not start a
/// message of its own where the assistant spoke or called right before it.
pub struct Train {
    pub settled: Seq<char>,
    pub last: Seq<char>,
    pub pending: Seq<char>,
    pub speaking: bool,
}

impl Train {
    /// The thoughts after an item.
    ///
    /// What is said takes up what is pending. So does a call; where it joins what the
    /// assistant just said or called, its own thought replaces the one that led to
    /// that. What is pending before a message of the user is settled as it is.
    pub open spec fn next(self, item: JsonView) -> Train {
        let content = item.field("content"@);
        if item.field("type"@) == JsonView::Text("reasoning"@) {
            if content is Null {
                self
            } else {
                Train { pending: self.pending + words(content), ..self }
            }
        } else if is_said(item) {
            Train {
                settled: self.settled + self.last,
                last: self.pending,
                pending: Seq::empty(),
                speaking: true,
            }
        } else if is_called(item) {
            if !self.speaking {
                Train {
                    settled: self.settled + self.last,
                    last: self.pending,
                    pending: Seq::empty(),
                    speaking: true,
                }
            } else if self.pending.len() > 0 {
                Train { last: self.pending, pending: Seq::empty(), ..self }
            } else {
                self
            }
        } else if heard(item) matches Some((role, _)) && role == "user"@ {
            Train {
                settled: self.settled + self.last + self.pending,
                last: Seq::empty(),
                pending: Seq::empty(),
                speaking: false,
            }
        } else if heard(item) is Some || is_result(item) {
            Train { speaking: false, ..self }
        } else {
            self
        }
    }
}

/// The thoughts after items.
pub open spec fn train(items: Seq<JsonView>) -> Train
    decreases items.len(),
{
    if items.len() == 0 {
        Train { settled: Seq::empty(), last: Seq::empty(), pending: Seq::empty(), speaking: false }
    } else {
        train(items.drop_last()).next(items.last())
    }
}

/// What messages say was thought.
spec fn thought(messages: Seq<MessageView>) -> Seq<char>
    decreases messages.len(),
{
    if messages.len() == 0 {
        Seq::empty()
    } else {
        thought(messages.drop_last()) + thought_of(messages.last())
    }
}

proof fn lemma_push(messages: Seq<MessageView>, message: MessageView)
    ensures
        thought(messages.push(message)) == thought(messages) + thought_of(message),
{
    assert(messages.push(message).drop_last() =~= messages);
}

/// The thought of a message that only results follow comes last, and may be another.
proof fn lemma_update(messages: Seq<MessageView>, i: int, message: MessageView)
    requires
        0 <= i < messages.len(),
        forall|k: int| i < k < messages.len() ==> (#[trigger] messages[k]) is Tool,
    ensures
        thought(messages) == thought(messages.take(i)) + thought_of(messages[i]),
        thought(messages.update(i, message)) == thought(messages.take(i)) + thought_of(message),
    decreases messages.len(),
{
    let after = messages.update(i, message);
    let rest = messages.drop_last();
    if i == messages.len() - 1 {
        assert(messages.take(i) =~= rest);
        assert(after.drop_last() =~= rest);
    } else {
        assert forall|k: int| i < k < rest.len() implies (#[trigger] rest[k]) is Tool by {
            assert(messages[k] is Tool);
        }
        lemma_update(rest, i, message);
        assert(rest.take(i) =~= messages.take(i));
        assert(after.drop_last() =~= rest.update(i, message));
        assert(messages[messages.len() - 1] is Tool);
        assert(after.last() == messages.last());
        assert(thought(rest) + Seq::<char>::empty() =~= thought(rest));
        assert(thought(rest.update(i, message)) + Seq::<char>::empty() =~= thought(rest.update(i, message)));
    }
}

proof fn lemma_cancel(a: Seq<char>, b: Seq<char>, end: Seq<char>)
    requires
        a + end == b + end,
    ensures
        a == b,
{
    assert((a + end).len() == a.len() + end.len());
    assert((b + end).len() == b.len() + end.len());
    assert(a =~= (a + end).take(a.len() as int));
    assert(b =~= (b + end).take(b.len() as int));
}

/// Whether the thoughts are those of a history.
spec fn is_thought(history: HistoryView, train: Train) -> bool {
    &&& is_batched(history)
    &&& thought(history.messages) == train.settled + train.last
    &&& history.reasoning == train.pending
    &&& history.open.len() == 0 || history.assistant_last() ==> train.speaking == history.assistant_last()
    &&& history.open.len() > 0 ==> thought_of(history.messages[history.batch]) == history.recalled + train.last
    &&& history.open.len() == 0 && history.assistant_last() ==> thought_of(history.messages.last()) == train.last
}

proof fn lemma_say(history: HistoryView, train: Train, content: Seq<char>)
    requires
        is_thought(history, train),
        is_batched(history.say(content)),
    ensures
        is_thought(
            history.say(content),
            Train {
                settled: train.settled + train.last,
                last: train.pending,
                pending: Seq::empty(),
                speaking: true,
            },
        ),
{
    let after = history.say(content);
    if history.open.len() > 0 {
        let message = after.messages[history.batch];
        let recalled = thought_of(history.messages[history.batch]);
        assert(after.messages =~= history.messages.update(history.batch, message));
        lemma_update(history.messages, history.batch, message);
        assert(recalled + Seq::<char>::empty() =~= recalled);
        if train.pending.len() == 0 {
            assert(train.pending =~= Seq::empty());
        }
        assert(thought_of(message) == recalled + train.pending);
        assert(thought(history.messages.take(history.batch)) + (recalled + train.pending) =~= thought(
            history.messages,
        ) + train.pending);
    } else {
        let message = after.messages.last();
        lemma_push(history.messages, message);
        if train.pending.len() == 0 {
            assert(train.pending =~= Seq::empty());
        }
        assert(thought_of(message) == train.pending);
    }
}

proof fn lemma_ask(history: HistoryView, train: Train, call: WireCallView)
    requires
        is_thought(history, train),
    ensures
        history.ask(call) matches Ok(after) ==> is_batched(after) ==> is_thought(
            after,
            if !train.speaking {
                Train {
                    settled: train.settled + train.last,
                    last: train.pending,
                    pending: Seq::empty(),
                    speaking: true,
                }
            } else if train.pending.len() > 0 {
                Train { last: train.pending, pending: Seq::empty(), ..train }
            } else {
                train
            },
        ),
{
    if let Ok(after) = history.ask(call) {
        if train.pending.len() == 0 {
            assert(train.pending =~= Seq::empty());
        }
        let blank = assistant(Seq::empty());
        if !history.assistant_last() {
            let messages = history.messages.push(blank);
            let last = messages.len() - 1;
            let message = after.messages[last];
            lemma_push(history.messages, message);
            assert(after.messages =~= history.messages.push(message));
            assert(Seq::<char>::empty() + train.pending =~= train.pending);
            assert(thought_of(message) == train.pending);
            assert(after.recalled + train.pending =~= train.pending);
        } else {
            let last = history.messages.len() - 1;
            let message = after.messages[last];
            let before = thought(history.messages.take(last));
            assert(after.messages =~= history.messages.update(last, message));
            lemma_update(history.messages, last, message);
            if history.open.len() > 0 {
                assert(history.batch == last) by {
                    if history.batch < last {
                        assert(history.messages[last] is Tool);
                    }
                }
                assert(before + (history.recalled + train.last) =~= before + history.recalled + train.last);
                lemma_cancel(before + history.recalled, train.settled, train.last);
                assert(before + (history.recalled + train.pending) =~= before + history.recalled + train.pending);
            } else {
                lemma_cancel(before, train.settled, train.last);
                assert(Seq::<char>::empty() + train.last =~= train.last);
                assert(Seq::<char>::empty() + train.pending =~= train.pending);
            }
        }
    }
}

proof fn lemma_hear(history: HistoryView, train: Train, role: Seq<char>, content: Seq<char>)
    requires
        is_thought(history, train),
        role == "user"@ || role == "system"@ || role == "developer"@,
    ensures
        history.hear(role, content) matches Ok(after) ==> is_batched(after) ==> is_thought(
            after,
            if role == "user"@ {
                Train {
                    settled: train.settled + train.last + train.pending,
                    last: Seq::empty(),
                    pending: Seq::empty(),
                    speaking: false,
                }
            } else {
                Train { speaking: false, ..train }
            },
        ),
{
    if let Ok(after) = history.hear(role, content) {
        let message = after.messages.last();
        let none = Seq::<char>::empty();
        if role == "user"@ && history.reasoning.len() > 0 {
            let said = history.say(none);
            lemma_push(history.messages, said.messages.last());
            assert(said.messages =~= history.messages.push(said.messages.last()));
            lemma_push(said.messages, message);
            assert(after.messages =~= said.messages.push(message));
            assert(thought(said.messages) + none =~= thought(said.messages));
            assert(thought(after.messages) =~= train.settled + train.last + train.pending + none);
        } else {
            lemma_push(history.messages, message);
            assert(after.messages =~= history.messages.push(message));
            assert(thought(history.messages) + none =~= thought(history.messages));
            if role == "user"@ {
                assert(train.pending =~= none);
                assert(train.settled + train.last + train.pending + none =~= train.settled + train.last);
            }
        }
    }
}

proof fn lemma_read(history: HistoryView, train: Train, item: JsonView)
    requires
        is_thought(history, train),
    ensures
        history.read(item) matches Ok(after) ==> is_thought(after, train.next(item)),
{
    lemma_kinds();
    reveal_strlit("user");
    reveal_strlit("system");
    reveal_strlit("developer");
    reveal_strlit("assistant");
    assert("user"@.len() == 4 && "system"@.len() == 6 && "developer"@.len() == 9 && "assistant"@.len() == 9);
    assert("developer"@[0] != "assistant"@[0]);
    reveal_strlit("additional_tools");
    reveal_strlit("message");
    reveal_strlit("agent_message");
    reveal_strlit("reasoning");
    reveal_strlit("function_call");
    reveal_strlit("custom_tool_call");
    reveal_strlit("function_call_output");
    reveal_strlit("custom_tool_call_output");
    assert("additional_tools"@.len() == 16 && "message"@.len() == 7 && "agent_message"@.len() == 13);
    assert("reasoning"@.len() == 9 && "function_call"@.len() == 13 && "custom_tool_call"@.len() == 16);
    assert("function_call_output"@.len() == 20 && "custom_tool_call_output"@.len() == 23);
    assert("additional_tools"@[0] != "custom_tool_call"@[0]);
    lemma_read_batched(history, item);
    lemma_words(item.field("content"@));
    if let Ok(after) = history.read(item) {
        let kind = item.field("type"@);
        if kind == JsonView::Text("message"@) || kind == JsonView::Text("agent_message"@) {
            let content = text_view(item.field("content"@))->Ok_0;
            if is_said(item) {
                lemma_say(history, train, content);
            } else {
                let role = if kind == JsonView::Text("agent_message"@) {
                    "user"@
                } else {
                    string_view(item, "role"@)->Ok_0
                };
                lemma_hear(history, train, role, content);
            }
        } else if is_called(item) {
            let entered = HistoryView { table: after.table, ..history };
            assert(is_batched(entered));
            lemma_ask(entered, train, after.open.last());
        } else if is_result(item) {
            let message = after.messages.last();
            assert(after.messages =~= history.messages.push(message));
            lemma_push(history.messages, message);
            assert(thought(history.messages) + Seq::<char>::empty() =~= thought(history.messages));
        }
    }
}

proof fn lemma_read_all(history: HistoryView, items: Seq<JsonView>)
    requires
        is_thought(history, train(Seq::empty())),
    ensures
        history.read_all(items) matches Ok(after) ==> is_thought(after, train(items)),
    decreases items.len(),
{
    if items.len() == 0 {
        assert(items =~= Seq::empty());
    } else {
        lemma_read_all(history, items.drop_last());
        if let Ok(between) = history.read_all(items.drop_last()) {
            lemma_read(between, train(items.drop_last()), items.last());
        }
    }
}

proof fn lemma_in_body(messages: Seq<MessageView>)
    ensures
        thoughts_in(messages_json(messages)) == thought(messages),
    decreases messages.len(),
{
    if messages.len() > 0 {
        let message = messages.last();
        lemma_in_body(messages.drop_last());
        assert(messages_json(messages).drop_last() =~= messages_json(messages.drop_last()));
        assert(messages_json(messages).last() == message.json());
        reveal_strlit("role");
        reveal_strlit("content");
        reveal_strlit("tool_calls");
        reveal_strlit("tool_call_id");
        reveal_strlit("reasoning_content");
        assert("role"@.len() == 4 && "content"@.len() == 7 && "tool_calls"@.len() == 10);
        assert("tool_call_id"@.len() == 12 && "reasoning_content"@.len() == 17);
        assert(text_in(message.json().field("reasoning_content"@)) == thought_of(message));
    }
}

/// A body says all that the assistant thought, to the letter and in order, but for the
/// thoughts that a later one replaces.
pub proof fn thoughts_are_sent(request: JsonView)
    ensures
        encode_view(request) matches Ok((body, _)) ==> {
            let thoughts = train(list_in(request.field("input"@)));
            &&& thoughts_in(list_in(body.field("messages"@))) == thoughts.settled + thoughts.last
            &&& thoughts.pending.len() == 0
        },
{
    if let Ok((body, tools)) = encode_view(request) {
        let items = request.field("input"@)->Array_0;
        let history = opened(request, tools);
        bodies_carry_their_content(request);
        let none = Seq::<MessageView>::empty();
        assert(thought(none) == Seq::<char>::empty());
        if history.messages.len() > 0 {
            assert(history.messages.drop_last() =~= none);
        } else {
            assert(history.messages =~= none);
        }
        assert(thought(history.messages) =~= Seq::empty());
        assert(train(Seq::empty()).settled + train(Seq::empty()).last =~= Seq::empty());
        assert(is_batched(history));
        assert(is_thought(history, train(Seq::empty())));
        lemma_read_all(history, items);
        lemma_in_body(messages_view(request, tools)->Ok_0);
    }
}

} // verus!
