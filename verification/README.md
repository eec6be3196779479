# Roomie

A relay server for multiplayer games. One player hosts and sends the game
state; everyone else sends input; the server keeps the rooms and relays both.

## Layout

- `src/` is the server's logic, written in Verus and proved against its
  contracts: validation of a client's hello (`validation`), room codes
  (`code`), rooms and their members (`room`), the rooms of one app (`pool`),
  the registry of apps and leaving a room (`registry`), per-app room defaults
  (`config`), message handling (`dispatch`, `hello`, `control`) and the wire
  framing and rate limit (`protocol`). `outside` holds the calls into other
  crates, each with the contract the library relies on.
- `app/` is the program around it: the TCP and WebSocket listeners, the
  connection loops, reading app config files, the message encoding and the
  HTTP stats endpoint.
- `tests/` runs the library on concrete cases.
