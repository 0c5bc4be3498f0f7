# codebuddy_chat

A text-only adapter between an agent that keeps a response-style history and a
provider that speaks streaming chat completions. The library is verified with Verus.

A request of the agent becomes the body of a chat request, or is refused before
anything is sent. The chunks of the answer become events for the agent. Tool calls
are handed over only when the whole answer has arrived and every call in it names one
advertised tool.

## Layout

- `src/request.rs`, `src/history.rs`, `src/message.rs`: from a request to the body.
- `src/tools.rs`: tools and their names on the wire.
- `src/completion.rs`, `src/calls.rs`, `src/dispatch.rs`, `src/event.rs`: from chunks
  to events.
- `src/stream.rs`: the request that opens a stream, and the reply to each arrival.
- `src/compact.rs`: the tool exchanges that a compacted history keeps.
- `src/recovery.rs`: what a model is told after its answer was cut off.
- `src/json.rs`, `src/wire.rs`: JSON values, and the calls into `serde_json`.
- `src/laws.rs` and `src/laws/`: what holds of the library as a whole.
- `tests/`: tests on concrete values, with `serde_json` and `eventsource-stream`.
- `app/`: the adapter on an HTTP transport, with a `tokio` task for each stream.

## What is relied on

The contracts in `src/wire.rs` on `serde_json`, and the one in `src/text.rs` on the
comparison of `str` values. The alias of a tool whose name no provider takes is a
hash of `std`'s `DefaultHasher`, written as a 64-bit little-endian machine writes it.
