# bitchat_rust

A Bluetooth Low Energy mesh chat that speaks the bitchat protocol, with its
core written in Verus and proved against its contracts.

## Layout

- `src/` — the verified library.
  - `protocol` — the wire formats (outer packet, chat message, fragment,
    announcement): serializers and parsers whose contracts are the formats
    themselves, and the round-trip laws.
  - `network` — the node as a state machine: each radio event, each peer
    packet and each user request maps the node's state to a new state and a
    list of actions (radio commands and user-interface events). Fragmentation
    and reassembly, the handshake steps, delivery and relaying are stated
    over plain values; laws cover reassembly (the node then drops the
    reassembled packet and leaves the peer half-handled), at-most-once
    delivery and the handling of discovery and disconnection.
  - `chat` — the state behind the chat window.
  - `command` — the slash-command parser.
  - `noise` — Noise `XX` sessions through `snow`, with a ghost model of
    each session (its handshake messages, the plaintexts it encrypted, the
    messages it decrypted) under which the handshake completes and each end
    decrypts what the other encrypts.
  - `compression`, `identity`, `ids` — LZ4, keys and
    UUIDs through the `lz4_flex`, `ed25519-dalek` and `uuid` crates,
    behind small trusted wrappers whose doc comments say what is assumed.
  - `bytes`, `text` — big-endian encodings and UTF-8 helpers.
- `tests/` — tests that run the library with the real crates linked.
- `app/` — the program: the radio task (`btleplug`), the event loop that feeds
  the node and performs its actions (`tokio`), the window (`eframe`), and the
  identity file (`bincode`).
