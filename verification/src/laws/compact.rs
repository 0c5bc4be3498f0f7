//! What holds of the tool exchanges that a compacted history keeps.

use vstd::prelude::*;

use crate::compact::{
    call_key, call_of, ends_exchange, exchange_count, exchange_tokens, is_exchange, is_kept,
    kept_before, last_turn, lemma_limits_shrink, output_key, recent_exchanges, within_limits,
    EnvelopeView, MAX_EXCHANGES, MAX_ITEM_TOKENS, MAX_TOKENS,
};
use crate::event::ItemView;

verus! {

/// The tokens of all items.
pub open spec fn total_tokens(items: Seq<EnvelopeView>) -> nat
    decreases items.len(),
{
    if items.len() == 0 {
        0
    } else {
        total_tokens(items.drop_last()) + items.last().tokens as nat
    }
}

/// Whether the item belongs to an exchange that ends at this place or later.
spec fn belongs(items: Seq<EnvelopeView>, from: int, i: int) -> bool {
    exists|call: int, output: int| #[trigger]
        is_exchange(items, call, output) && from <= output && (i == call || i == output)
}

spec fn belonging(items: Seq<EnvelopeView>, from: int) -> Set<int> {
    Set::new(|i: int| belongs(items, from, i))
}

/// How many places before the end are in the set.
spec fn place_count(places: Set<int>, end: int) -> nat
    decreases end,
{
    if end <= 0 {
        0
    } else {
        place_count(places, end - 1) + if places.contains(end - 1) {
            1nat
        } else {
            0
        }
    }
}

/// The tokens of the items before the end whose places are in the set.
spec fn place_tokens(items: Seq<EnvelopeView>, places: Set<int>, end: int) -> nat
    decreases end,
{
    if end <= 0 {
        0
    } else {
        place_tokens(items, places, end - 1) + if places.contains(end - 1) {
            items[end - 1].tokens as nat
        } else {
            0
        }
    }
}

proof fn lemma_one_more_place(items: Seq<EnvelopeView>, places: Set<int>, place: int, end: int)
    requires
        0 <= place,
        !places.contains(place),
    ensures
        place_count(places.insert(place), end) == place_count(places, end) + if place < end {
            1nat
        } else {
            0
        },
        place_tokens(items, places.insert(place), end) == place_tokens(items, places, end) + if place
            < end {
            items[place].tokens as nat
        } else {
            0
        },
    decreases end,
{
    if end > 0 {
        lemma_one_more_place(items, places, place, end - 1);
    }
}

proof fn lemma_no_place(items: Seq<EnvelopeView>, end: int)
    ensures
        place_count(Set::empty(), end) == 0,
        place_tokens(items, Set::empty(), end) == 0,
    decreases end,
{
    if end > 0 {
        lemma_no_place(items, end - 1);
    }
}

/// No item is in two exchanges.
proof fn lemma_exchanges_differ(items: Seq<EnvelopeView>, call: int, output: int, other: int, end: int)
    requires
        is_exchange(items, call, output),
        is_exchange(items, other, end),
    ensures
        call != end,
        (call == other) == (output == end),
{
    let key = output_key(items[output].item);
    if call == other {
        if output < end {
            assert(output_key(items[end].item) != key);
        }
        if end < output {
            assert(output_key(items[output].item) != output_key(items[end].item));
        }
    }
    if output == end {
        if call < other {
            assert(call_key(items[other].item) != key);
        }
        if other < call {
            assert(call_key(items[call].item) != key);
        }
    }
}

proof fn lemma_belonging(items: Seq<EnvelopeView>, from: int)
    requires
        0 <= from <= items.len(),
    ensures
        place_count(belonging(items, from), items.len() as int) == 2 * exchange_count(items, from),
        place_tokens(items, belonging(items, from), items.len() as int) == exchange_tokens(items, from),
    decreases items.len() - from,
{
    let places = belonging(items, from);
    if from == items.len() {
        assert(places =~= Set::empty());
        lemma_no_place(items, items.len() as int);
    } else {
        let rest = belonging(items, from + 1);
        lemma_belonging(items, from + 1);
        if ends_exchange(items, from) {
            let call = call_of(items, from);
            assert(is_exchange(items, call, from));
            assert forall|c: int, o: int| #[trigger] is_exchange(items, c, o) implies c != from && call != o
                && (c == call <==> o == from) by {
                lemma_exchanges_differ(items, c, o, call, from);
                lemma_exchanges_differ(items, call, from, c, o);
            }
            assert(!rest.contains(from));
            assert(!rest.insert(from).contains(call));
            assert forall|i: int| places.contains(i) == rest.insert(from).insert(call).contains(i) by {
                if places.contains(i) {
                    let (c, o) = choose|c: int, o: int| #[trigger]
                        is_exchange(items, c, o) && from <= o && (i == c || i == o);
                    if o > from {
                        assert(is_exchange(items, c, o) && from + 1 <= o && (i == c || i == o));
                    }
                }
                if rest.contains(i) {
                    let (c, o) = choose|c: int, o: int| #[trigger]
                        is_exchange(items, c, o) && from + 1 <= o && (i == c || i == o);
                    assert(is_exchange(items, c, o) && from <= o && (i == c || i == o));
                }
            }
            assert(places =~= rest.insert(from).insert(call));
            lemma_one_more_place(items, rest, from, items.len() as int);
            lemma_one_more_place(items, rest.insert(from), call, items.len() as int);
        } else {
            assert forall|i: int| places.contains(i) == rest.contains(i) by {
                if places.contains(i) {
                    let (c, o) = choose|c: int, o: int| #[trigger]
                        is_exchange(items, c, o) && from <= o && (i == c || i == o);
                    assert(o != from);
                    assert(is_exchange(items, c, o) && from + 1 <= o && (i == c || i == o));
                }
                if rest.contains(i) {
                    let (c, o) = choose|c: int, o: int| #[trigger]
                        is_exchange(items, c, o) && from + 1 <= o && (i == c || i == o);
                    assert(is_exchange(items, c, o) && from <= o && (i == c || i == o));
                }
            }
            assert(places =~= rest);
        }
    }
}

/// The first place from which on all exchanges are within the limits.
proof fn lemma_first_kept(items: Seq<EnvelopeView>, to: int) -> (from: int)
    requires
        0 <= to <= items.len(),
        within_limits(items, to),
    ensures
        0 <= from <= to,
        within_limits(items, from),
        from > 0 ==> !within_limits(items, from - 1),
    decreases to,
{
    if to > 0 && within_limits(items, to - 1) {
        lemma_first_kept(items, to - 1)
    } else {
        to
    }
}

proof fn lemma_kept(items: Seq<EnvelopeView>, from: int, i: int)
    requires
        0 <= from <= items.len(),
        within_limits(items, from),
        from > 0 ==> !within_limits(items, from - 1),
    ensures
        is_kept(items, i) == belonging(items, from).contains(i),
{
    if is_kept(items, i) {
        let (call, output) = choose|call: int, output: int| #[trigger]
            is_exchange(items, call, output) && within_limits(items, output) && (i == call || i == output);
        if output < from {
            lemma_limits_shrink(items, output, from - 1);
        }
        assert(is_exchange(items, call, output) && from <= output && (i == call || i == output));
    }
    if belonging(items, from).contains(i) {
        let (call, output) = choose|call: int, output: int| #[trigger]
            is_exchange(items, call, output) && from <= output && (i == call || i == output);
        lemma_limits_shrink(items, from, output);
        assert(is_exchange(items, call, output) && within_limits(items, output) && (i == call || i == output));
    }
}

proof fn lemma_kept_before(items: Seq<EnvelopeView>, from: int, end: int)
    requires
        0 <= from <= items.len(),
        0 <= end <= items.len(),
        within_limits(items, from),
        from > 0 ==> !within_limits(items, from - 1),
    ensures
        kept_before(items, end).len() == place_count(belonging(items, from), end),
        total_tokens(kept_before(items, end)) == place_tokens(items, belonging(items, from), end),
    decreases end,
{
    if end > 0 {
        lemma_kept_before(items, from, end - 1);
        lemma_kept(items, from, end - 1);
        if is_kept(items, end - 1) {
            assert(kept_before(items, end).drop_last() =~= kept_before(items, end - 1));
        }
    }
}

/// What is kept is bounded: at most eight exchanges, each of two items, no item with
/// more than 950 tokens, and at most four thousand tokens in all.
pub proof fn kept_exchanges_are_bounded(items: Seq<EnvelopeView>)
    ensures
        recent_exchanges(items).len() % 2 == 0,
        recent_exchanges(items).len() <= 2 * MAX_EXCHANGES,
        forall|i: int|
            0 <= i < recent_exchanges(items).len() ==> (#[trigger] recent_exchanges(items)[i]).tokens
                <= MAX_ITEM_TOKENS,
        total_tokens(recent_exchanges(items)) <= MAX_TOKENS,
{
    let turn = last_turn(items);
    let from = lemma_first_kept(turn, turn.len() as int);
    lemma_belonging(turn, from);
    lemma_kept_before(turn, from, turn.len() as int);
    let places = lemma_picked(turn, turn.len() as int);
    assert forall|i: int| 0 <= i < recent_exchanges(items).len() implies (
    #[trigger] recent_exchanges(items)[i]).tokens <= MAX_ITEM_TOKENS by {
        assert(places.contains(places[i]));
        kept_exchanges_are_whole(items, places[i]);
    }
}

/// No kept item is large, and each is kept together with the other half of its
/// exchange.
pub proof fn kept_exchanges_are_whole(items: Seq<EnvelopeView>, i: int)
    requires
        is_kept(last_turn(items), i),
    ensures
        0 <= i < last_turn(items).len(),
        last_turn(items)[i].tokens <= MAX_ITEM_TOKENS,
        exists|call: int, output: int| #[trigger]
            is_exchange(last_turn(items), call, output) && (i == call || i == output) && is_kept(
                last_turn(items),
                call,
            ) && is_kept(last_turn(items), output),
{
    let turn = last_turn(items);
    let (call, output) = choose|call: int, output: int| #[trigger]
        is_exchange(turn, call, output) && within_limits(turn, output) && (i == call || i == output);
    assert(is_exchange(turn, call, output));
}

/// Whether a list holds the items of another one at these places, in their order.
pub open spec fn picks(picked: Seq<EnvelopeView>, items: Seq<EnvelopeView>, places: Seq<int>) -> bool {
    &&& picked.len() == places.len()
    &&& forall|k: int|
        0 <= k < places.len() ==> 0 <= #[trigger] places[k] < items.len() && picked[k] == items[places[k]]
    &&& forall|j: int, k: int| 0 <= j < k < places.len() ==> #[trigger] places[j] < #[trigger] places[k]
}

proof fn lemma_picked(items: Seq<EnvelopeView>, end: int) -> (places: Seq<int>)
    requires
        0 <= end <= items.len(),
    ensures
        picks(kept_before(items, end), items, places),
        forall|k: int| 0 <= k < places.len() ==> #[trigger] places[k] < end,
        forall|i: int| places.contains(i) == (0 <= i < end && is_kept(items, i)),
    decreases end,
{
    if end == 0 {
        Seq::empty()
    } else {
        let before = lemma_picked(items, end - 1);
        if is_kept(items, end - 1) {
            let places = before.push(end - 1);
            assert forall|i: int| places.contains(i) == (0 <= i < end && is_kept(items, i)) by {
                if places.contains(i) {
                    let k = choose|k: int| 0 <= k < places.len() && places[k] == i;
                    if k < before.len() {
                        assert(before[k] == i);
                        assert(before.contains(i));
                    }
                }
                if 0 <= i < end && is_kept(items, i) {
                    if i < end - 1 {
                        assert(before.contains(i));
                        let k = choose|k: int| 0 <= k < before.len() && before[k] == i;
                        assert(places[k] == i);
                    } else {
                        assert(places[before.len() as int] == i);
                    }
                }
            }
            places
        } else {
            before
        }
    }
}

/// What is kept comes from the last turn, in its order, and is all of it that
/// belongs to a kept exchange.
pub proof fn kept_exchanges_keep_their_order(items: Seq<EnvelopeView>) -> (places: Seq<int>)
    ensures
        picks(recent_exchanges(items), last_turn(items), places),
        forall|i: int| places.contains(i) == (0 <= i < last_turn(items).len() && is_kept(last_turn(items), i)),
{
    lemma_picked(last_turn(items), last_turn(items).len() as int)
}

/// Whether a call and a later output are of one kind and have one call ID.
pub open spec fn is_pair(turn: Seq<EnvelopeView>, call: int, output: int) -> bool {
    &&& 0 <= call < output < turn.len()
    &&& match (turn[call].item, turn[output].item) {
        (
            ItemView::FunctionCall { call_id, .. },
            ItemView::FunctionCallOutput { call_id: Some(answered), .. },
        ) => call_id == answered,
        (
            ItemView::CustomToolCall { call_id, .. },
            ItemView::CustomToolCallOutput { call_id: answered, .. },
        ) => call_id == answered,
        _ => false,
    }
}

/// Whether two items are calls of one kind with one call ID.
pub open spec fn are_same_calls(a: ItemView, b: ItemView) -> bool {
    match (a, b) {
        (ItemView::FunctionCall { call_id, .. }, ItemView::FunctionCall { call_id: other, .. }) => call_id == other,
        (ItemView::CustomToolCall { call_id, .. }, ItemView::CustomToolCall { call_id: other, .. }) => call_id
            == other,
        _ => false,
    }
}

/// Whether two items are outputs of one kind with one call ID.
pub open spec fn are_same_outputs(a: ItemView, b: ItemView) -> bool {
    match (a, b) {
        (
            ItemView::FunctionCallOutput { call_id: Some(call_id), .. },
            ItemView::FunctionCallOutput { call_id: Some(other), .. },
        ) => call_id == other,
        (
            ItemView::CustomToolCallOutput { call_id, .. },
            ItemView::CustomToolCallOutput { call_id: other, .. },
        ) => call_id == other,
        _ => false,
    }
}

/// Whether no call ID occurs in two calls of a kind, nor in two outputs of a kind.
pub open spec fn ids_are_unique(turn: Seq<EnvelopeView>) -> bool {
    &&& forall|i: int, j: int|
        0 <= i < j < turn.len() ==> !are_same_calls((#[trigger] turn[i]).item, (#[trigger] turn[j]).item)
    &&& forall|i: int, j: int|
        0 <= i < j < turn.len() ==> !are_same_outputs((#[trigger] turn[i]).item, (#[trigger] turn[j]).item)
}

/// Whether an item is the call or the output of a pair of which the output stands at
/// that place or later.
pub open spec fn is_in_pair(turn: Seq<EnvelopeView>, from: int, i: int) -> bool {
    exists|call: int, output: int| #[trigger]
        is_pair(turn, call, output) && from <= output && (i == call || i == output)
}

/// The items before the end of pairs of which the outputs stand at that place or
/// later, in order.
pub open spec fn paired_before(turn: Seq<EnvelopeView>, from: int, end: int) -> Seq<EnvelopeView>
    decreases end,
{
    if end <= 0 {
        Seq::empty()
    } else if is_in_pair(turn, from, end - 1) {
        paired_before(turn, from, end - 1).push(turn[end - 1])
    } else {
        paired_before(turn, from, end - 1)
    }
}

/// The items of pairs of which the outputs stand at that place or later, in order.
pub open spec fn paired_from(turn: Seq<EnvelopeView>, from: int) -> Seq<EnvelopeView> {
    paired_before(turn, from, turn.len() as int)
}

/// Whether a call and a later output are of one kind and have one call ID, and no later
/// call and no later output has it.
pub open spec fn is_live_pair(turn: Seq<EnvelopeView>, call: int, output: int) -> bool {
    &&& is_pair(turn, call, output)
    &&& forall|later: int|
        call < later < turn.len() ==> !are_same_calls(turn[call].item, (#[trigger] turn[later]).item)
    &&& forall|later: int|
        output < later < turn.len() ==> !are_same_outputs(turn[output].item, (#[trigger] turn[later]).item)
}

/// Whether an item is the call or the output of a live pair of which the output stands at
/// that place or later.
pub open spec fn is_in_live_pair(turn: Seq<EnvelopeView>, from: int, i: int) -> bool {
    exists|call: int, output: int| #[trigger]
        is_live_pair(turn, call, output) && from <= output && (i == call || i == output)
}

/// The items before the end of live pairs of which the outputs stand at that place or
/// later, in order.
pub open spec fn live_before(turn: Seq<EnvelopeView>, from: int, end: int) -> Seq<EnvelopeView>
    decreases end,
{
    if end <= 0 {
        Seq::empty()
    } else if is_in_live_pair(turn, from, end - 1) {
        live_before(turn, from, end - 1).push(turn[end - 1])
    } else {
        live_before(turn, from, end - 1)
    }
}

/// The items of live pairs of which the outputs stand at that place or later, in order.
pub open spec fn live_from(turn: Seq<EnvelopeView>, from: int) -> Seq<EnvelopeView> {
    live_before(turn, from, turn.len() as int)
}

/// Whether items are few and small enough to be kept.
pub open spec fn are_small(items: Seq<EnvelopeView>) -> bool {
    &&& items.len() <= 16
    &&& total_tokens(items) <= 4000
    &&& forall|i: int| 0 <= i < items.len() ==> (#[trigger] items[i]).tokens <= 950
}

/// Whether items are one turn after what came before.
pub open spec fn is_turn(before: Seq<EnvelopeView>, turn: Seq<EnvelopeView>) -> bool {
    &&& before.len() > 0 ==> before.last().starts_user_turn
    &&& forall|i: int| 0 <= i < turn.len() ==> !(#[trigger] turn[i]).starts_user_turn
}

proof fn lemma_turn(before: Seq<EnvelopeView>, turn: Seq<EnvelopeView>)
    requires
        is_turn(before, turn),
    ensures
        last_turn(before + turn) == turn,
    decreases turn.len(),
{
    let all = before + turn;
    if turn.len() == 0 {
        assert(all =~= before);
        assert(last_turn(all) =~= turn);
    } else {
        let rest = turn.drop_last();
        assert(is_turn(before, rest)) by {
            assert forall|i: int| 0 <= i < rest.len() implies !(#[trigger] rest[i]).starts_user_turn by {
                assert(!turn[i].starts_user_turn);
            }
        }
        lemma_turn(before, rest);
        assert(all.drop_last() =~= before + rest);
        assert(!turn[turn.len() - 1].starts_user_turn);
        assert(all.last() == turn.last());
        assert(rest.push(turn.last()) =~= turn);
    }
}

proof fn lemma_pair(turn: Seq<EnvelopeView>, call: int, output: int)
    ensures
        is_live_pair(turn, call, output) <==> is_exchange(turn, call, output),
{
    if is_live_pair(turn, call, output) {
        assert forall|later: int| call < later < turn.len() implies call_key((#[trigger] turn[later]).item)
            != output_key(turn[output].item) by {
            assert(!are_same_calls(turn[call].item, turn[later].item));
        }
        assert forall|later: int| output < later < turn.len() implies output_key((#[trigger] turn[later]).item)
            != output_key(turn[output].item) by {
            assert(!are_same_outputs(turn[output].item, turn[later].item));
        }
    }
    if is_exchange(turn, call, output) {
        assert forall|later: int| call < later < turn.len() implies !are_same_calls(
            turn[call].item,
            (#[trigger] turn[later]).item,
        ) by {
            assert(call_key(turn[later].item) != output_key(turn[output].item));
        }
        assert forall|later: int| output < later < turn.len() implies !are_same_outputs(
            turn[output].item,
            (#[trigger] turn[later]).item,
        ) by {
            assert(output_key(turn[later].item) != output_key(turn[output].item));
        }
    }
}

proof fn lemma_in_pair(turn: Seq<EnvelopeView>, from: int, i: int)
    ensures
        is_in_live_pair(turn, from, i) == belonging(turn, from).contains(i),
{
    if is_in_live_pair(turn, from, i) {
        let (call, output) = choose|call: int, output: int| #[trigger]
            is_live_pair(turn, call, output) && from <= output && (i == call || i == output);
        lemma_pair(turn, call, output);
        assert(is_exchange(turn, call, output));
    }
    if belongs(turn, from, i) {
        let (call, output) = choose|call: int, output: int| #[trigger]
            is_exchange(turn, call, output) && from <= output && (i == call || i == output);
        lemma_pair(turn, call, output);
        assert(is_live_pair(turn, call, output));
    }
}

proof fn lemma_live_before(turn: Seq<EnvelopeView>, from: int, end: int)
    requires
        0 <= end <= turn.len(),
    ensures
        live_before(turn, from, end).len() == place_count(belonging(turn, from), end),
        total_tokens(live_before(turn, from, end)) == place_tokens(turn, belonging(turn, from), end),
        forall|i: int| 0 <= i < end && is_in_live_pair(turn, from, i) ==> live_before(turn, from, end).contains(
            #[trigger] turn[i],
        ),
        forall|k: int|
            0 <= k < live_before(turn, from, end).len() ==> exists|i: int|
                0 <= i < end && is_in_live_pair(turn, from, i) && turn[i] == #[trigger] live_before(
                    turn,
                    from,
                    end,
                )[k],
    decreases end,
{
    if end > 0 {
        let before = live_before(turn, from, end - 1);
        let all = live_before(turn, from, end);
        lemma_live_before(turn, from, end - 1);
        lemma_in_pair(turn, from, end - 1);
        if is_in_live_pair(turn, from, end - 1) {
            assert(all.drop_last() =~= before);
            assert(all[before.len() as int] == turn[end - 1]);
        }
        assert forall|i: int| 0 <= i < end && is_in_live_pair(turn, from, i) implies all.contains(#[trigger] turn[i]) by {
            if i < end - 1 {
                assert(before.contains(turn[i]));
                let k = choose|k: int| 0 <= k < before.len() && before[k] == turn[i];
                assert(all[k] == turn[i]);
            }
        }
        assert forall|k: int| 0 <= k < all.len() implies exists|i: int|
            0 <= i < end && is_in_live_pair(turn, from, i) && turn[i] == #[trigger] all[k] by {
            if k < before.len() {
                assert(all[k] == before[k]);
                let i = choose|i: int|
                    0 <= i < end - 1 && is_in_live_pair(turn, from, i) && turn[i] == before[k];
                assert(is_in_live_pair(turn, from, i) && turn[i] == all[k]);
            } else {
                assert(is_in_live_pair(turn, from, end - 1) && turn[end - 1] == all[k]);
            }
        }
    }
}

proof fn lemma_small(turn: Seq<EnvelopeView>, from: int)
    requires
        0 <= from <= turn.len(),
    ensures
        are_small(live_from(turn, from)) == within_limits(turn, from),
{
    let kept = live_from(turn, from);
    lemma_belonging(turn, from);
    lemma_live_before(turn, from, turn.len() as int);
    if are_small(kept) {
        assert forall|call: int, output: int| #[trigger]
            is_exchange(turn, call, output) && from <= output implies turn[call].tokens <= MAX_ITEM_TOKENS
            && turn[output].tokens <= MAX_ITEM_TOKENS by {
            lemma_pair(turn, call, output);
            assert(is_live_pair(turn, call, output));
            assert(is_in_live_pair(turn, from, call));
            assert(is_in_live_pair(turn, from, output));
            assert(kept.contains(turn[call]));
            assert(kept.contains(turn[output]));
        }
    }
    if within_limits(turn, from) {
        assert forall|k: int| 0 <= k < kept.len() implies (#[trigger] kept[k]).tokens <= 950 by {
            let i = choose|i: int| 0 <= i < turn.len() && is_in_live_pair(turn, from, i) && turn[i] == kept[k];
            let (call, output) = choose|call: int, output: int| #[trigger]
                is_live_pair(turn, call, output) && from <= output && (i == call || i == output);
            lemma_pair(turn, call, output);
            assert(is_exchange(turn, call, output));
        }
    }
}

proof fn lemma_kept_pairs(turn: Seq<EnvelopeView>, from: int, end: int)
    requires
        0 <= from <= turn.len(),
        0 <= end <= turn.len(),
        within_limits(turn, from),
        from > 0 ==> !within_limits(turn, from - 1),
    ensures
        kept_before(turn, end) == live_before(turn, from, end),
    decreases end,
{
    if end > 0 {
        lemma_kept_pairs(turn, from, end - 1);
        lemma_kept(turn, from, end - 1);
        lemma_in_pair(turn, from, end - 1);
    }
}

/// The latest live pairs are kept: all of which the outputs stand at a place or later,
/// where these are few and small enough, and those from the place before on are not.
/// Where a call ID is used again, only the last call and the last output of it count.
/// Nothing else is kept, and the order stays.
pub proof fn latest_pairs_are_kept(before: Seq<EnvelopeView>, turn: Seq<EnvelopeView>, from: int)
    requires
        is_turn(before, turn),
        0 <= from <= turn.len(),
        are_small(live_from(turn, from)),
        from > 0 ==> !are_small(live_from(turn, from - 1)),
    ensures
        recent_exchanges(before + turn) == live_from(turn, from),
{
    lemma_turn(before, turn);
    lemma_small(turn, from);
    if from > 0 {
        lemma_small(turn, from - 1);
    }
    lemma_kept_pairs(turn, from, turn.len() as int);
}

proof fn lemma_live(turn: Seq<EnvelopeView>, end: int)
    requires
        ids_are_unique(turn),
        0 <= end <= turn.len(),
    ensures
        live_before(turn, 0, end) == paired_before(turn, 0, end),
    decreases end,
{
    if end > 0 {
        lemma_live(turn, end - 1);
        let i = end - 1;
        if is_in_live_pair(turn, 0, i) {
            let (call, output) = choose|call: int, output: int| #[trigger]
                is_live_pair(turn, call, output) && 0 <= output && (i == call || i == output);
            assert(is_pair(turn, call, output));
        }
        if is_in_pair(turn, 0, i) {
            let (call, output) = choose|call: int, output: int| #[trigger]
                is_pair(turn, call, output) && 0 <= output && (i == call || i == output);
            assert(is_live_pair(turn, call, output));
        }
    }
}

/// Where no call ID is used twice, all pairs of a call and a later output are kept,
/// whatever stands between the two, as long as they are at most eight, none of their
/// items has more than 950 tokens, and all of them together have at most four thousand.
/// Nothing else is kept, and the order stays.
pub proof fn small_turns_are_kept(before: Seq<EnvelopeView>, turn: Seq<EnvelopeView>)
    requires
        is_turn(before, turn),
        ids_are_unique(turn),
        are_small(paired_from(turn, 0)),
    ensures
        recent_exchanges(before + turn) == paired_from(turn, 0),
{
    lemma_live(turn, turn.len() as int);
    latest_pairs_are_kept(before, turn, 0);
}

/// What is kept of a turn does not depend on what came before it.
pub proof fn earlier_turns_do_not_matter(before: Seq<EnvelopeView>, turn: Seq<EnvelopeView>)
    requires
        is_turn(before, turn),
    ensures
        recent_exchanges(before + turn) == recent_exchanges(turn),
{
    lemma_turn(before, turn);
    lemma_turn(Seq::empty(), turn);
    assert(Seq::<EnvelopeView>::empty() + turn =~= turn);
}

/// Whatever is kept is kept in pairs of a call and its output.
pub proof fn kept_items_are_paired(items: Seq<EnvelopeView>, k: int) -> (other: int)
    requires
        0 <= k < recent_exchanges(items).len(),
    ensures
        is_pair(recent_exchanges(items), k, other) || is_pair(recent_exchanges(items), other, k),
{
    let turn = last_turn(items);
    let kept = recent_exchanges(items);
    let places = kept_exchanges_keep_their_order(items);
    let i = places[k];
    assert(places.contains(i));
    kept_exchanges_are_whole(items, i);
    let (call, output) = choose|call: int, output: int| #[trigger]
        is_exchange(turn, call, output) && (i == call || i == output) && is_kept(turn, call) && is_kept(
            turn,
            output,
        );
    assert(places.contains(call) && places.contains(output));
    let a = choose|a: int| 0 <= a < places.len() && places[a] == call;
    let b = choose|b: int| 0 <= b < places.len() && places[b] == output;
    assert(a < b);
    assert(is_pair(kept, a, b));
    if i == call {
        if a < k {
            assert(places[a] < places[k]);
        }
        if k < a {
            assert(places[k] < places[a]);
        }
        b
    } else {
        if b < k {
            assert(places[b] < places[k]);
        }
        if k < b {
            assert(places[k] < places[b]);
        }
        a
    }
}

} // verus!
