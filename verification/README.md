# rtn-mq

Bounded publish and subscribe messaging between endpoints that know each other by their public
keys. The library holds the rules, and Verus proves that the code keeps them; `app/` joins the
library to the network, to files and to the clock.

## What is where

- `cbor`, `cose`, `armor`, `record`, `wire`: how records are written and read. Every record has one
  encoding, and what is read back is what was written.
- `crypto`, `identity`, `auth`: keys, signatures, certificates and revocations.
- `address`, `invite`, `join`, `bootstrap`, `enrollment`, `admission`: how an endpoint gets a
  certificate, and what a host remembers of it.
- `message`, `endpoint`, `session`: messages, settings, and the start of a session.
- `owner`, `control`, `incoming`, `outgoing`, `publishing`, `credits`, `allowances`, `deliveries`,
  `upkeep`, `lifecycle`: the state of an endpoint and each thing that can happen to it, and what its
  subscriptions may have out.
- `buffer`, `queue`, `files`, `ledger`, `ordered`, `octets`, `time`: memory budgets, queues, checks on
  private files, records of what was asked for, and what the other modules stand on.
- `laws`: what holds of an endpoint whatever happens to it.

The owner of an endpoint is a value. What happens outside it (a record of a peer, a frame, a call
of the application, the passing of time) comes in as a call of one of its methods, and what is to
be done about it is taken out again: records for peers, frames to write, outcomes, replies. `H` is
what the surroundings attach to its entries, such as connections, payloads and reservations. It is
part of the state that the contracts speak of, and so each attachment stays with its entry. Where
something must be asked for meanwhile (memory, a receipt, that storage takes a state), it is asked
for through a `Ledger`, and the contract says what was asked for and what was made of each answer.

## What is believed

The calls into other crates stand in small functions marked `external_body`: `cbor` (minicbor),
`crypto` (iroh's keys, sha2, rand), `armor` (base64), `address` and `invite` (iroh's addresses),
`buffer` (bytes) and `queue` (rtrb). The comment above each says what is claimed of the call.
