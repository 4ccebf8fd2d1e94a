# mikall

Serverless chat that is also an IRC server: text channels, direct messages, file
sending, voice calls and screen sharing between peers, with no server anywhere.

This crate is its verified core. Every item under `src/` is checked by Verus; a
reader who wants to know what a function does reads its contract.

| Module | What it holds |
|---|---|
| `messaging` | Message bodies and names, the message graph, channels and threads. |
| `calls`, `identity`, `presence`, `transfer` | The other aggregates. |
| `services` | The use cases over them, and the router for inbound traffic. |
| `crypto` | Identity keys, signatures, content-derived ids. |
| `net` | Wire values, peer names, topics. |
| `irc` | The IRC protocol, and one client's session with the gateway. |
| `media` | Sealed frames, reordering, control, the screen-share pipeline, relays, codecs. |
| `sim` | A universe of nodes on an in-memory bus. |
| `order`, `sorted`, `text`, `bytes`, `wording` | What the others stand on. |

Public proof functions whose names begin with `law_` state what holds of several
functions together, such as that peers who hold the same messages display the
same history.

Calls into other crates (BLAKE3, Ed25519, ChaCha20-Poly1305, libp2p's peer ids,
OpenH264, random numbers) stand behind small trusted functions, each with a doc
comment that says what is believed of it: see `crypto`, `net::names`,
`media::frame` and `media::h264`.

`app/` is ordinary Rust around the library: sockets, the libp2p swarm, key files,
clocks, CBOR, the async loops of the media pipelines, and whatever is floating
point. `tests/` runs the library.
