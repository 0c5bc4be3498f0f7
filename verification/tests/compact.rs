//! The exchanges that a compacted history keeps.

use codebuddy_chat::compact::{recent_tool_exchanges, ResponseItemEnvelope};
use codebuddy_chat::event::ResponseItem;
use codebuddy_chat::wire::text_of;

/// An item with about one token for every four bytes of it.
fn envelope(item: ResponseItem) -> ResponseItemEnvelope {
    let tokens = (text_of(&item.json()).len() as u64 + 3) / 4;
    let starts_user_turn = matches!(&item, ResponseItem::Message { role, .. } if role == "user");
    ResponseItemEnvelope { item, starts_user_turn, tokens }
}

fn call(id: &str) -> ResponseItemEnvelope {
    envelope(ResponseItem::FunctionCall {
        call_id: id.to_owned(),
        name: "read_file".to_owned(),
        namespace: None,
        arguments: "{}".to_owned(),
    })
}

fn output(id: &str, output: &str) -> ResponseItemEnvelope {
    envelope(ResponseItem::FunctionCallOutput {
        call_id: Some(id.to_owned()),
        output: output.to_owned(),
    })
}

#[test]
fn retains_complete_recent_pairs_in_order_and_stops_at_oversized_output() {
    let custom = envelope(ResponseItem::CustomToolCall {
        call_id: "custom".to_owned(),
        name: "apply_patch".to_owned(),
        namespace: None,
        input: "patch".to_owned(),
    });
    let custom_output = envelope(ResponseItem::CustomToolCallOutput {
        call_id: "custom".to_owned(),
        output: "applied".to_owned(),
    });
    let user = envelope(ResponseItem::Message {
        id: None,
        role: "user".to_owned(),
        content: vec!["current task".to_owned()],
    });
    let orphan = output("orphan", "unpaired");
    let expected =
        vec![call("recent"), output("recent", "evidence"), custom.clone(), custom_output.clone()];
    let history = vec![
        call("recent"),
        output("recent", "evidence"),
        user,
        call("recent"),
        expected[1].clone(),
        custom,
        custom_output,
        orphan,
    ];
    assert_eq!(recent_tool_exchanges(&history), expected);
    let oversized = output("recent", &"x".repeat(8000));
    assert_eq!(recent_tool_exchanges(&[call("recent"), oversized]), Vec::new());
    let mut many = Vec::new();
    for index in 0..20 {
        many.push(call(&index.to_string()));
        many.push(output(&index.to_string(), "ok"));
    }
    assert_eq!(recent_tool_exchanges(&many), many[24..]);
}

/// An envelope with that many tokens.
fn weighing(envelope: ResponseItemEnvelope, tokens: u64) -> ResponseItemEnvelope {
    ResponseItemEnvelope { tokens, ..envelope }
}

#[test]
fn limits_are_inclusive() {
    let fits = vec![weighing(call("a"), 950), weighing(output("a", "x"), 950)];
    assert_eq!(recent_tool_exchanges(&fits), fits);
    let large_call = vec![weighing(call("a"), 951), weighing(output("a", "x"), 1)];
    assert_eq!(recent_tool_exchanges(&large_call), Vec::new());
    let large_output = vec![weighing(call("a"), 1), weighing(output("a", "x"), 951)];
    assert_eq!(recent_tool_exchanges(&large_output), Vec::new());

    // 1900 and 1900 tokens leave 200 for the exchange before them.
    let mut items = Vec::new();
    for (id, tokens) in [("a", 100), ("b", 950), ("c", 950)] {
        items.push(weighing(call(id), tokens));
        items.push(weighing(output(id, "x"), tokens));
    }
    assert_eq!(recent_tool_exchanges(&items), items);
    items[0].tokens = 101;
    assert_eq!(recent_tool_exchanges(&items), items[2..]);
}

#[test]
fn exchanges_are_kept_by_twos() {
    let mut items = Vec::new();
    for count in 0..12 {
        let kept = recent_tool_exchanges(&items);
        assert_eq!(kept.len(), 2 * std::cmp::min(count, 8));
        assert!(kept.iter().map(|item| item.tokens).sum::<u64>() <= 4000);
        items.push(weighing(call(&count.to_string()), 250));
        items.push(weighing(output(&count.to_string(), "x"), 250));
    }
}

#[test]
fn what_does_not_fit_hides_what_is_older() {
    let items = vec![
        weighing(call("old"), 1),
        weighing(output("old", "x"), 1),
        weighing(call("big"), 1),
        weighing(output("big", "x"), 2000),
        weighing(call("new"), 1),
        weighing(output("new", "x"), 1),
    ];
    assert_eq!(recent_tool_exchanges(&items), items[4..]);
}

#[test]
fn the_last_output_and_the_last_call_of_a_key_are_a_pair() {
    // An output before its call, and an output that a later one replaces, are not kept.
    let items = vec![output("a", "early"), call("a"), output("a", "first"), output("a", "second")];
    assert_eq!(recent_tool_exchanges(&items), vec![items[1].clone(), items[3].clone()]);
    let late_call = vec![call("a"), output("a", "x"), call("a")];
    assert_eq!(recent_tool_exchanges(&late_call), Vec::new());
    // A function and a custom tool do not share a key.
    let other_kind = vec![
        call("a"),
        envelope(ResponseItem::CustomToolCallOutput {
            call_id: "a".to_owned(),
            output: "x".to_owned(),
        }),
    ];
    assert_eq!(recent_tool_exchanges(&other_kind), Vec::new());
    let unnamed = vec![
        call("a"),
        envelope(ResponseItem::FunctionCallOutput { call_id: None, output: "x".to_owned() }),
    ];
    assert_eq!(recent_tool_exchanges(&unnamed), Vec::new());
    assert_eq!(recent_tool_exchanges(&[]), Vec::new());
}
