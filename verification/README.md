# dns_socket

A stub DNS resolver socket in verified Rust. It keeps a table of queries in
flight, writes their requests, retransmits them with growing delays, moves from
one server to the next when time runs out, follows aliases, and reads address
and SRV answers. Names that end in `local` are asked by multicast DNS.

The socket does no I/O and reads no clock. The caller hands in the time, the
random transaction ID and port of a new query, the packets that came in, and a
function that sends a packet.

## Layout

- `src/socket.rs`: the socket; `SocketModel` is its mathematical value.
- `src/query.rs`: one query and its retransmission schedule.
- `src/answer.rs`: what a response says about a query.
- `src/wire.rs`, `src/name.rs`: the message format and domain names.
- `src/ip.rs`, `src/time.rs`, `src/result.rs`, `src/error.rs`, `src/config.rs`:
  plain data.
- `src/laws.rs`: what holds of the socket as a whole, proved over the models.
- `src/history.rs`: what holds after any string of calls.
- `src/storage.rs`, `src/slots.rs`: the collections of `heapless` and `managed`
  behind contracts that are trusted, and the few standard library calls that
  need one.
- `app/`: the error types with `Display` and `std::error::Error`.
- `tests/`: the library at work on concrete messages.

## What is trusted

Verus itself, and the contracts marked `external_body` or
`assume_specification` in `src/storage.rs` and `src/slots.rs`. Each names the
function that it speaks of.
