# sfu

A selective forwarding unit (SFU) for WebRTC calls, verified with Verus.

Each participant sends its media once; the SFU forwards it to the other
participants of the room, picks the active speaker, renegotiates the
peers' SDP as tracks come and go, and relays media between SFU nodes of a
cluster over pipe transports.

- `src/` is the verified library:
  - `ids`: participants, rooms and their text form, media kinds;
  - `relay`: voice activity and active speaker detection;
  - `peer`: one connected peer and its track tables;
  - `routing`: missing receive tracks and track mappings;
  - `server`: the decisions of the event loop (joining, leaving,
    renegotiation, forwarding, keyframe routing, commands);
  - `cascade`: cluster membership, redirection and pipe transports;
  - `graphql_types`, `service`: result and event types;
  - `assoc`: finite maps as sequences of pairs;
  - `rtc`: the trusted interface to the str0m WebRTC engine and serde_json,
    and the log, kept as ghost state, of what the library hands each
    connection (frames, keyframe requests, inactive media, its close).
- `tests/` runs the library.
- `app/` holds the tokio event loop around the library, the UDP socket,
  connection setup, the GraphQL and JSON forms of the types, and the
  floating-point audio level.
