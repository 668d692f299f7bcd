# session_handler

Nodes of a validator network tell each other where they can be reached by signed statements, each
for one session. A handler collects the statements of one session: it checks them, remembers which
peer stands behind which index, knows which nodes are still missing, and rechecks everything when
the keychain changes.

- `src/` is the library, verified with Verus.
  - `types`, `crypto`, `scale`, `network`: identifiers, authorities and their signatures, the
    encoding of signed messages, and what is asked of the network.
  - `authentication`: the statements, current and legacy, and what is kept of one peer.
  - `state`: the model of a handler and its transitions.
  - `session`: the handler.
  - `laws`: what is proved of handlers as a whole.
- `app/` is the asynchronous side: signing with keys that are kept elsewhere, and the interface to
  the network.
- `tests/` runs the library with real keys.

Statements of a peer are kept in the order in which the peers were first heard of. Peers, addresses
and multiaddresses are modelled by their encodings.
