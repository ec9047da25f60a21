# Veil

An onion-routing message fabric built on fixed-size cells. A message is
fragmented into 512-byte cells; each cell is encrypted end to end for its
recipient, put in an envelope behind the sender's ephemeral public key,
and sent along its own randomly drawn path of relays, wrapped in one
onion layer per relay. Exit relays queue what they deliver in a mailbox
that any client may pull; only the recipient can open its cells, and it
reassembles them into the message.

## Layout

- `src/` is the verified library (Verus). Verus checks every function
  there against its contract; the counter snapshot of `metrics` has none,
  since concurrently updated atomics give nothing to state:
  - `cell`, `fragmentation`, `reassembly`: the cell format, splitting a
    message into cells and rebuilding it from cells in any order;
  - `crypto`: X25519 key pairs, HKDF key derivation, ChaCha20-Poly1305
    cell encryption;
  - `forwarding`, `circuit`: onion layers, their framing, and circuits;
  - `topology`, `path_selection`, `topology_file`, `discovery`: the
    relays a client knows, random (and subnet-diverse) path selection,
    topology files, topologies assembled from relay self-descriptions;
  - `envelope`, `session`, `client`, `receiver`, `cover_traffic`: the
    sending and receiving sides and cover traffic;
  - `relay`, `metrics`, `mailbox`, `pull_listener`: a relay's per-frame
    decisions, its counters, its delivery queue and the mailbox wire
    format;
  - `primitives`: the only contact with outside crates. Its items are
    trusted: their contracts are believed, not proved.
- `tests/` exercises the library with the real outside crates linked.
- `app/` is the unverified program around the library: the relay node,
  the key generator and the command-line harness, with all networking,
  timers, files, JSON and TOML.

`app/main.rs` runs `veil relay [config.toml]`, `veil relay-keygen`, or
the demonstration `veil [message] [hop_count]` /
`veil [message] --topology <file>`.
