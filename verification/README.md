# netplaycraft

Verified building blocks for a portable multiplayer state-machine runtime.

- `types`: typed ticks, peers, players, sequences, channels, checksums, commands.
- `sim`: the `Simulation`, `Snapshotable` and `Checksummed` capabilities; a
  failed `tick` or `restore` leaves the state unchanged.
- `transport`: the nonblocking message transport contract and its events.
- `time`: virtual time spans.
- `model`: the mathematical model of the seeded in-memory network.
- `memory`: `SimulatedNetwork` and its two `MemoryTransport` endpoints, each
  operation proved to act exactly as the model says.
- `ledger`: the accounting that traces every copy in flight, waiting or
  polled to the accepted send it copies.
- `laws`: properties proved of the model (loss, duplication, copies per
  send, latency, ordering, disconnection, composition of time steps).
  Seeded runs repeat because every operation's contract equates its result
  and new state with a function of the old state and its arguments.

The tests under `tests/` exercise the library on concrete values.
