//! The tool exchanges that a compacted history keeps word for word.

use vstd::prelude::*;

use crate::event::{ItemView, ResponseItem};
use crate::text::same_text;
use crate::views::{group_views, views};

verus! {

broadcast use group_views;

/// An item of a history, whether it starts a turn of the user, and an estimate of
/// its tokens.
#[derive(Debug, PartialEq)]
pub struct ResponseItemEnvelope {
    pub item: ResponseItem,
    pub starts_user_turn: bool,
    pub tokens: u64,
}

pub struct EnvelopeView {
    pub item: ItemView,
    pub starts_user_turn: bool,
    pub tokens: u64,
}

impl View for ResponseItemEnvelope {
    type V = EnvelopeView;

    open spec fn view(&self) -> EnvelopeView {
        EnvelopeView {
            item: self.item@,
            starts_user_turn: self.starts_user_turn,
            tokens: self.tokens,
        }
    }
}

impl Clone for ResponseItemEnvelope {
    fn clone(&self) -> (copy: ResponseItemEnvelope)
        ensures
            copy@ == self@,
    {
        ResponseItemEnvelope {
            item: self.item.clone(),
            starts_user_turn: self.starts_user_turn,
            tokens: self.tokens,
        }
    }
}

/// The most tokens that an item of an exchange may have.
pub const MAX_ITEM_TOKENS: u64 = 950;

/// The most tokens that all exchanges together may have.
pub const MAX_TOKENS: u64 = 4000;

/// The most exchanges.
pub const MAX_EXCHANGES: u64 = 8;

/// Whether the tool is a custom one, and the id of the call, where the item is a call.
pub open spec fn call_key(item: ItemView) -> Option<(bool, Seq<char>)> {
    match item {
        ItemView::FunctionCall { call_id, .. } => Some((false, call_id)),
        ItemView::CustomToolCall { call_id, .. } => Some((true, call_id)),
        _ => None,
    }
}

/// Whether the tool is a custom one, and the id of the call, where the item is the
/// output of a call.
pub open spec fn output_key(item: ItemView) -> Option<(bool, Seq<char>)> {
    match item {
        ItemView::FunctionCallOutput { call_id: Some(call_id), .. } => Some((false, call_id)),
        ItemView::CustomToolCallOutput { call_id, .. } => Some((true, call_id)),
        _ => None,
    }
}

/// What follows the last item that starts a turn of the user.
pub open spec fn last_turn(items: Seq<EnvelopeView>) -> Seq<EnvelopeView>
    decreases items.len(),
{
    if items.len() == 0 || items.last().starts_user_turn {
        Seq::empty()
    } else {
        last_turn(items.drop_last()).push(items.last())
    }
}

/// Whether the items at these places are an exchange: the last call under a key,
/// and, later, the last output under that key.
pub open spec fn is_exchange(items: Seq<EnvelopeView>, call: int, output: int) -> bool {
    &&& 0 <= call < output < items.len()
    &&& output_key(items[output].item) is Some
    &&& call_key(items[call].item) == output_key(items[output].item)
    &&& forall|later: int|
        call < later < items.len() ==> call_key((#[trigger] items[later]).item) != output_key(
            items[output].item,
        )
    &&& forall|later: int|
        output < later < items.len() ==> output_key((#[trigger] items[later]).item) != output_key(
            items[output].item,
        )
}

/// Whether an exchange ends at this place.
pub open spec fn ends_exchange(items: Seq<EnvelopeView>, output: int) -> bool {
    exists|call: int| is_exchange(items, call, output)
}

/// Where the exchange starts that ends at this place.
pub open spec fn call_of(items: Seq<EnvelopeView>, output: int) -> int {
    choose|call: int| is_exchange(items, call, output)
}

/// How many exchanges end at this place or later.
pub open spec fn exchange_count(items: Seq<EnvelopeView>, from: int) -> nat
    decreases items.len() - from,
{
    if from < 0 || from >= items.len() {
        0
    } else {
        exchange_count(items, from + 1) + if ends_exchange(items, from) {
            1nat
        } else {
            0
        }
    }
}

/// The tokens of the exchanges that end at this place or later.
pub open spec fn exchange_tokens(items: Seq<EnvelopeView>, from: int) -> nat
    decreases items.len() - from,
{
    if from < 0 || from >= items.len() {
        0
    } else {
        exchange_tokens(items, from + 1) + if ends_exchange(items, from) {
            (items[call_of(items, from)].tokens + items[from].tokens) as nat
        } else {
            0
        }
    }
}

/// Whether the exchanges that end at this place or later are within the limits.
pub open spec fn within_limits(items: Seq<EnvelopeView>, from: int) -> bool {
    &&& exchange_count(items, from) <= MAX_EXCHANGES
    &&& exchange_tokens(items, from) <= MAX_TOKENS
    &&& forall|call: int, output: int| #[trigger]
        is_exchange(items, call, output) && from <= output ==> items[call].tokens <= MAX_ITEM_TOKENS
            && items[output].tokens <= MAX_ITEM_TOKENS
}

/// Whether the item at this place is kept: it belongs to an exchange that is within
/// the limits together with all that end later.
pub open spec fn is_kept(items: Seq<EnvelopeView>, i: int) -> bool {
    exists|call: int, output: int| #[trigger]
        is_exchange(items, call, output) && within_limits(items, output) && (i == call || i
            == output)
}

/// The kept items before this place, in order.
pub open spec fn kept_before(items: Seq<EnvelopeView>, end: int) -> Seq<EnvelopeView>
    decreases end,
{
    if end <= 0 {
        Seq::empty()
    } else if is_kept(items, end - 1) {
        kept_before(items, end - 1).push(items[end - 1])
    } else {
        kept_before(items, end - 1)
    }
}

/// The exchanges of the last turn that are kept: the latest that are within the
/// limits, in order.
pub open spec fn recent_exchanges(items: Seq<EnvelopeView>) -> Seq<EnvelopeView> {
    kept_before(last_turn(items), last_turn(items).len() as int)
}

fn is_call(item: &ResponseItem, custom: bool, id: &str) -> (found: bool)
    ensures
        found == (call_key(item@) == Some((custom, id@))),
{
    match item {
        ResponseItem::FunctionCall { call_id, .. } => !custom && same_text(call_id.as_str(), id),
        ResponseItem::CustomToolCall { call_id, .. } => custom && same_text(call_id.as_str(), id),
        _ => false,
    }
}

fn output_of(item: &ResponseItem) -> (key: Option<(bool, &str)>)
    ensures
        match key {
            Some((custom, id)) => output_key(item@) == Some((custom, id@)),
            None => output_key(item@) is None,
        },
{
    match item {
        ResponseItem::FunctionCallOutput { call_id, .. } => match call_id {
            Some(call_id) => Some((false, call_id.as_str())),
            None => None,
        },
        ResponseItem::CustomToolCallOutput { call_id, .. } => Some((true, call_id.as_str())),
        _ => None,
    }
}

fn is_output(item: &ResponseItem, custom: bool, id: &str) -> (found: bool)
    ensures
        found == (output_key(item@) == Some((custom, id@))),
{
    match output_of(item) {
        Some((other, other_id)) => other == custom && same_text(other_id, id),
        None => false,
    }
}

proof fn lemma_last_turn(items: Seq<EnvelopeView>, start: int)
    requires
        0 <= start <= items.len(),
        start > 0 ==> items[start - 1].starts_user_turn,
        forall|i: int| start <= i < items.len() ==> !(#[trigger] items[i]).starts_user_turn,
    ensures
        last_turn(items) == items.skip(start),
    decreases items.len(),
{
    if items.len() > start {
        let before = items.drop_last();
        assert(!items[items.len() - 1].starts_user_turn);
        lemma_last_turn(before, start);
        assert(before.skip(start).push(items.last()) =~= items.skip(start));
    } else {
        assert(items.skip(start) =~= Seq::empty());
    }
}

/// What follows the last item that starts a turn of the user.
fn turn(items: &[ResponseItemEnvelope]) -> (tail: Vec<&ResponseItemEnvelope>)
    ensures
        tail.len() == last_turn(views(items@)).len(),
        forall|i: int| 0 <= i < tail.len() ==> (#[trigger] tail[i])@ == last_turn(views(items@))[i],
{
    let mut start: usize = items.len();
    while start > 0 && !items[start - 1].starts_user_turn
        invariant
            start <= items.len(),
            forall|i: int| start <= i < items.len() ==> !(#[trigger] items[i]).starts_user_turn,
        decreases start,
    {
        start = start - 1;
    }
    proof {
        assert(forall|i: int| 0 <= i < items.len() ==> (#[trigger] views(items@)[i]) == items[i]@);
        lemma_last_turn(views(items@), start as int);
    }
    let mut tail: Vec<&ResponseItemEnvelope> = Vec::new();
    let mut i: usize = start;
    while i < items.len()
        invariant
            start <= i <= items.len(),
            tail.len() == i - start,
            forall|j: int| 0 <= j < tail.len() ==> (#[trigger] tail[j])@ == items[j + start]@,
        decreases items.len() - i,
    {
        tail.push(&items[i]);
        i = i + 1;
    }
    tail
}

pub open spec fn turn_view(tail: Seq<&ResponseItemEnvelope>) -> Seq<EnvelopeView> {
    Seq::new(tail.len(), |i: int| tail[i]@)
}

proof fn lemma_one_call(items: Seq<EnvelopeView>, call: int, other: int, output: int)
    requires
        is_exchange(items, call, output),
        is_exchange(items, other, output),
    ensures
        call == other,
{
    if call < other {
        assert(call_key(items[other].item) != output_key(items[output].item));
    }
    if other < call {
        assert(call_key(items[call].item) != output_key(items[output].item));
    }
}

/// Where the exchange starts that ends at this place, if one does.
fn find_call(tail: &Vec<&ResponseItemEnvelope>, output: usize) -> (call: Option<usize>)
    requires
        output < tail.len(),
    ensures
        match call {
            Some(call) => {
                &&& ends_exchange(turn_view(tail@), output as int)
                &&& call == call_of(turn_view(tail@), output as int)
                &&& is_exchange(turn_view(tail@), call as int, output as int)
            },
            None => !ends_exchange(turn_view(tail@), output as int),
        },
{
    let ghost items = turn_view(tail@);
    let (custom, id) = match output_of(&tail[output].item) {
        Some(key) => key,
        None => return None,
    };
    let ghost key = output_key(items[output as int].item);
    let mut later: usize = tail.len();
    while later - 1 > output
        invariant
            output < later <= tail.len(),
            items == turn_view(tail@),
            key == output_key(items[output as int].item),
            key == Some((custom, id@)),
            forall|j: int| later <= j < items.len() ==> output_key((#[trigger] items[j]).item) != key,
        decreases later,
    {
        later = later - 1;
        assert(items[later as int] == tail[later as int]@);
        if is_output(&tail[later].item, custom, id) {
            return None;
        }
    }
    let mut call: usize = tail.len();
    while call > 0
        invariant
            output < tail.len(),
            call <= tail.len(),
            items == turn_view(tail@),
            key == output_key(items[output as int].item),
            key == Some((custom, id@)),
            forall|j: int| output < j < items.len() ==> output_key((#[trigger] items[j]).item) != key,
            forall|j: int| call <= j < items.len() ==> call_key((#[trigger] items[j]).item) != key,
        decreases call,
    {
        call = call - 1;
        assert(items[call as int] == tail[call as int]@);
        if is_call(&tail[call].item, custom, id) {
            if call < output {
                proof {
                    assert(is_exchange(items, call as int, output as int));
                    lemma_one_call(items, call as int, call_of(items, output as int), output as int);
                }
                return Some(call);
            }
            proof {
                assert forall|other: int| !is_exchange(items, other, output as int) by {
                    if is_exchange(items, other, output as int) {
                        assert(other < call);
                        assert(call_key(items[call as int].item) != output_key(items[output as int].item));
                    }
                }
            }
            return None;
        }
    }
    None
}

/// Fewer exchanges stay within the limits.
pub proof fn lemma_limits_shrink(items: Seq<EnvelopeView>, from: int, to: int)
    requires
        0 <= from <= to <= items.len(),
        within_limits(items, from),
    ensures
        within_limits(items, to),
    decreases to - from,
{
    if from < to {
        lemma_limits_shrink(items, from + 1, to);
    }
}

/// The tool exchanges of the last turn that are kept: the latest, as many as are
/// within the limits, in order.
pub fn recent_tool_exchanges(items: &[ResponseItemEnvelope]) -> (kept: Vec<ResponseItemEnvelope>)
    ensures
        views(kept@) == recent_exchanges(views(items@)),
{
    let tail = turn(items);
    let ghost all = turn_view(tail@);
    assert(all =~= last_turn(views(items@)));
    let mut selected: Vec<bool> = Vec::new();
    while selected.len() < tail.len()
        invariant
            selected.len() <= tail.len(),
            forall|i: int| 0 <= i < selected.len() ==> !(#[trigger] selected[i]),
        decreases tail.len() - selected.len(),
    {
        selected.push(false);
    }
    let mut end: usize = tail.len();
    let mut remaining: u64 = MAX_TOKENS;
    let mut count: u64 = 0;
    let mut full = false;
    assert(within_limits(all, end as int));
    while end > 0 && !full
        invariant
            end <= tail.len(),
            selected.len() == tail.len(),
            all == turn_view(tail@),
            count <= MAX_EXCHANGES,
            count == exchange_count(all, end as int),
            remaining == MAX_TOKENS - exchange_tokens(all, end as int),
            within_limits(all, end as int),
            full ==> end > 0 && !within_limits(all, end - 1),
            forall|i: int|
                0 <= i < all.len() ==> (#[trigger] selected[i] <==> exists|call: int, output: int| #[trigger]
                    is_exchange(all, call, output) && end <= output && (i == call || i == output)),
        decreases end, if full { 0int } else { 1int },
    {
        let output: usize = end - 1;
        let found = find_call(&tail, output);
        proof {
            assert(all[output as int] == tail[output as int]@);
        }
        match found {
            None => {
                end = output;
            },
            Some(call) => {
                let call_tokens = tail[call].tokens;
                let output_tokens = tail[output].tokens;
                proof {
                    assert(all[call as int] == tail[call as int]@);
                    assert(is_exchange(all, call as int, output as int));
                    assert(exchange_count(all, output as int) == count + 1);
                    assert(exchange_tokens(all, output as int) == exchange_tokens(all, end as int)
                        + call_tokens + output_tokens);
                }
                if call_tokens > MAX_ITEM_TOKENS || output_tokens > MAX_ITEM_TOKENS || call_tokens
                    + output_tokens > remaining || count >= MAX_EXCHANGES {
                    full = true;
                } else {
                    let ghost before = selected@;
                    remaining = remaining - (call_tokens + output_tokens);
                    count = count + 1;
                    selected.set(call, true);
                    selected.set(output, true);
                    proof {
                        assert forall|i: int| 0 <= i < all.len() implies (#[trigger] selected[i]
                            <==> exists|c: int, o: int| #[trigger]
                            is_exchange(all, c, o) && output <= o && (i == c || i == o)) by {
                            if i != call && i != output {
                                assert(selected[i] == before[i]);
                                assert forall|c: int| is_exchange(all, c, output as int) implies c == call by {
                                    lemma_one_call(all, c, call as int, output as int);
                                }
                            }
                        }
                        assert forall|c: int, o: int| #[trigger]
                            is_exchange(all, c, o) && output <= o implies all[c].tokens
                            <= MAX_ITEM_TOKENS && all[o].tokens <= MAX_ITEM_TOKENS by {
                            if o == output {
                                lemma_one_call(all, c, call as int, output as int);
                            }
                        }
                    }
                    end = output;
                }
            },
        }
    }
    proof {
        assert forall|i: int| 0 <= i < all.len() implies (#[trigger] selected[i] <==> is_kept(all, i)) by {
            if selected[i] {
                let (call, output) = choose|call: int, output: int| #[trigger]
                    is_exchange(all, call, output) && end <= output && (i == call || i == output);
                lemma_limits_shrink(all, end as int, output);
            }
            if is_kept(all, i) {
                let (call, output) = choose|call: int, output: int| #[trigger]
                    is_exchange(all, call, output) && within_limits(all, output) && (i == call || i
                        == output);
                if output < end {
                    lemma_limits_shrink(all, output, end - 1);
                }
            }
        }
    }
    let mut kept: Vec<ResponseItemEnvelope> = Vec::new();
    let mut i: usize = 0;
    assert(views(kept@) =~= kept_before(all, 0));
    while i < tail.len()
        invariant
            i <= tail.len(),
            selected.len() == tail.len(),
            all == turn_view(tail@),
            forall|i: int| 0 <= i < all.len() ==> (#[trigger] selected[i] <==> is_kept(all, i)),
            views(kept@) == kept_before(all, i as int),
        decreases tail.len() - i,
    {
        assert(all[i as int] == tail[i as int]@);
        if selected[i] {
            kept.push(tail[i].clone());
        }
        i = i + 1;
    }
    kept
}

} // verus!
