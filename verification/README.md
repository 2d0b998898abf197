# rust_timing_lib

A deterministic logical-time engine, verified with Verus: contexts that wait
for seconds, beats, frames and barriers, a tempo that may change under running
waits, structured cancellation, and reproducible randomness.

- `src/flt` holds IEEE 754 doubles by their bit patterns, with correctly
  rounded arithmetic.
- `src/pq`, `src/scheduler`, `src/executor`, `src/world` are the queues, the
  ready tasks and the state that contexts share.
- `src/tempo`, `src/rng`, `src/context`, `src/barrier` are what a program
  works with.
- `src/engine` steps logical time, or runs it by the clock. The host drains
  the ready tasks between two steps.
- `src/laws` states what holds of the whole. `src/moves` names what tasks and
  the host may do, `src/upkeep` what each of these moves keeps, `src/kin` what
  a cancellation reaches and what it leaves alone, `src/frames` that a wait for
  a frame lasts until the frame, and `src/replay` that a run in real time and a
  run in steps come to the same.
- `src/inverse` bounds how far the time of the beats at a time is from that
  time, for tempos that are set and ramped.
- `src/notation` reads a terse notation and writes the Rust code it stands
  for.
- `src/demo` holds the voices of some pieces.
- `app` gives the library futures, a clock and a MIDI device.
