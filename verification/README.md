# saorsa_core

The core of a peer-to-peer node, verified with Verus: iterative Kademlia
lookups, owner-signed address records, canary-gated relays, the routing
snapshot and the close group cache, and the rules of the transport.

Every function of the library states in its contract what it returns, and
Verus proves it. Laws that relate several functions are public proof functions
whose names start with `law_`.

## Layout

- `src/keys.rs`, `src/table.rs`, `src/text.rs`: keys and their XOR distance,
  ordered tables and sets, text.
- `src/dht_lookup.rs`, `src/lookup_run.rs`: the state of a lookup, and the walk
  from round to round. `src/lookup_laws.rs` and `src/walk_laws.rs` hold what is
  true of every sequence of calls and of every walk.
- `src/address.rs`, `src/address_text.rs`, `src/octets.rs`,
  `src/transport_address.rs`: addresses, their text, their bytes, and their
  records in the open address plane.
- `src/identity.rs`, `src/peer_id.rs`: keys of a node and the identity that
  follows from them.
- `src/signed_address.rs`, `src/record_bundle.rs`, `src/authority.rs`,
  `src/peer_record.rs`, `src/projection.rs`, `src/record_laws.rs`: statements
  that an owner signs about its addresses, and which of them counts.
- `src/client_routing.rs`, `src/routing_laws.rs`: what a client learns of peers
  from the responses to a lookup.
- `src/reachability/`: canary rounds and the driver that keeps a relay.
- `src/bootstrap/`: what is kept across restarts.
- `src/transport/`: channels and peers, messages, requests, dials. Its maps are
  those of the `dashmap` crate, in `src/transport/maps.rs`.
- `src/probe.rs`: arguments and statistics of the lookup probe.
- `src/concurrent.rs`: maps and sets of the `dashmap` crate.
- `src/codec.rs`: encodings, which the `postcard` crate computes.
- `tests/`: tests of the library.
- `app/`: the node around the library, with its sockets, files, clocks and
  tasks.

## What is trusted

`src/codec.rs`, `src/identity.rs`, `src/concurrent.rs` and
`src/transport/maps.rs` call `postcard`, `saorsa-pqc`, `saorsa-transport` and
`dashmap`, `src/reachability/canary.rs` calls `rand`, and
`src/transport/requests.rs` calls `uuid`. The contracts of these calls are
believed; each says in its doc comment what it claims.
