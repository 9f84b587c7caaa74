# catcheb

A small real-time multiplayer game of catch: players move around a map,
the catcher hunts the others, and food is spilled and collected. The server
runs the authoritative simulation and streams delta encoded states over an
unreliable WebRTC channel; clients predict their own movement and
interpolate everything else.

## Layout

- `src/` is the verified library (Verus). It holds the netcode and the
  game's rules that do not depend on floating point:
  - `ids`, `idmap`: identifiers and a sorted map keyed by them;
  - `join`, `diff`: full joins of sorted sequences and delta encoding of
    maps, with the round trip of a difference proved;
  - `server`: buffering and scheduling of player inputs, acknowledgments,
    the choice of a delta encoding base, and where joining players go;
  - `client`, `interp`, `prediction`: playback, interpolation targets, the
    resent input window and the client-side prediction log;
  - `ping`, `loss`: matching pongs to pings and packet loss bookkeeping;
  - `game`: message types and small rules of the game;
  - `mapfile`: sorting the objects of a Tiled map into spawn points and
    entities.
- `app/` is the server program around the library: the floating-point
  simulation and geometry, networking, serialization and timing.
- `tests/` exercises the library on concrete values.
