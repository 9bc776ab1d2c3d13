# ppgw

A small reliable-message layer over UDP. A message is cut into fragments,
each framed into a big-endian data packet; the receiver
writes the fragments into a buffer in whatever order they arrive, answers
with acknowledgements that list what it holds, and hands the message over
once every fragment is there. The sender frames again whatever is still
unacknowledged.

## Chosen values

The polling node (`connection`) cuts messages into fragments of
`packet::MAXPACKETLEN` = 8 bytes. Some other constants were chosen for this
crate:

- The threaded node (`enode`) cuts messages into fragments of
  `enode::ENODE_PACKETLEN` = 2048 bytes. The tests
  `test_send_one_packet_message` and `test_send_two_packet_message` expect a
  message with 256 payload bytes to travel in one packet and one with 2560
  bytes in two; 2048 is the power of two that gives both.
- The message types `SHOWMESSAGE` = 1, `SENDMESSAGE` = 2 and
  `ADDRMESSAGE` = 3, and the node identifier type `u16`.

## Layout

- `src/` is the verified library (Verus):
  - `packet` — the wire format of data packets and acknowledgements, with
    round-trip laws for both;
  - `net::messagecacher`, `messagecacher` — the state of one message in
    flight, for the polling node and for the threaded node;
  - `connection` — one peer of the polling node: queueing, framing,
    receiving, acknowledging and the periodic check;
  - `enode` — the packet handling of the threaded node;
  - `transfer` — the laws that tie sender and receiver together: fragments
    delivered in any order rebuild the message, and acknowledgements prune
    exactly what arrived;
  - `pieces` — a message cut into pieces of any sizes, written in any order,
    rebuilds itself in a cacher;
  - `node`, `node_shell`, `addr_server`, `stats`, `clock`, `digest`,
    `message`, `utility::buffer` and the smaller modules around them.
- `tests/` runs the library on concrete values.
- `app/` is the program around it: sockets, threads, channels, the
  interactive shell and message serialisation with `serde`/`bincode`.
