# tcp

A TCP log-forwarding system with a verified core.

- `src/` is the library, verified with Verus:
  - `text`: the character-level model — where records end (`'\n'`), how a
    text splits into lines, the wire form of a batch, decimal numbers — with
    the lemmas that relate them.
  - `server`: framing a client's stream into records (`LineAssembler`), the
    batch buffer (`LogBuffer`), one intake step, and the flush decisions.
  - `batch`: the writes that forward a batch and the error of a failed write.
  - `destination`: splitting a delivered text into lines and storing them.
  - `client`: send interval, sample log records, session progress, reconnection.
  - `outside`: the calls into `rand`, `chrono` and std's lossy UTF-8 decoding.
  - `laws`: properties of the system as a whole.
- `app/` runs the server, the client and the destination on tokio and calls
  the library for every decision: `app server`, `app client <rate>`,
  `app destination`.
- `tests/` exercises the library on concrete values.
